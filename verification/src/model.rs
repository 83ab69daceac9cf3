//! The records of clients, projects and the sender that an invoice names,
//! and how the answers of an operator become such records.

use vstd::prelude::*;
use slug::slugify;
use crate::text::concat_exec;
use crate::text::find_first;
use crate::text::first_match;
use crate::text::from_chars;
use crate::text::lemma_first_match;
use crate::text::lemma_lex_asymmetric;
use crate::text::lemma_lex_transitive;
use crate::text::lex_less;
use crate::text::lex_less_exec;
use crate::text::matches_at;
use crate::text::matches_at_exec;
use crate::text::slice_exec;
use crate::text::to_chars;
use crate::text::trim_exec;
use crate::text::trimmed;

verus! {

/// A postal address.
#[derive(Clone, Debug)]
pub struct Address {
    pub street: String,
    pub city: String,
    pub state: String,
    pub zip: String,
}

/// A project, or job site, of a client.
#[derive(Clone, Debug)]
pub struct Project {
    pub id: String,
    pub name: Option<String>,
    pub address: Address,
}

/// A client with its projects.
#[derive(Clone, Debug)]
pub struct ClientConfig {
    /// The company's name, or `Attn:` and a person's name.
    pub name: String,
    /// The contact person of a company.
    pub attn: Option<String>,
    pub email: Option<String>,
    pub billing_address: Option<Address>,
    pub projects: Vec<Project>,
}

/// The party that issues the invoices.
#[derive(Clone, Debug)]
pub struct SenderConfig {
    pub name: String,
    pub address1: String,
    pub address2: String,
    pub license: String,
    pub email: String,
    pub phone: String,
    pub bank_info: String,
}

/// What precedes the name of a client who is a person.
pub const ATTN_PREFIX: &'static str = "Attn: ";

/// The label of a project without a name.
pub const UNNAMED_PROJECT: &'static str = "Project";

/// What parts the name and the street in the label of a project.
pub const LABEL_SEPARATOR: &'static str = " | ";

/// What parts the year and the client in the label of an output folder.
pub const FOLDER_SEPARATOR: &'static str = " / ";

/// What opens a path below the home directory.
pub const HOME_MARK: char = '~';

/// The slug of `text`: what stands for it in file names and identifiers.
pub uninterp spec fn slug_text(text: Seq<char>) -> Seq<char>;

/// The city and the state of the place with the postal code `zip`, by the
/// table of United States postal codes; `None` where `zip` does not begin
/// with a code of five digits, or the table has no such code.
pub uninterp spec fn place_of_zip(zip: Seq<char>) -> Option<(Seq<char>, Seq<char>)>;

/// `c` is a lower-case ASCII letter, an ASCII digit or a hyphen.
pub open spec fn is_slug_char(c: char) -> bool {
    ('a' <= c && c <= 'z') || ('0' <= c && c <= '9') || c == '-'
}

/// `s` has the form of a slug: lower-case ASCII letters, digits and hyphens,
/// with no hyphen at either end and no two hyphens in a row.
pub open spec fn is_slug(s: Seq<char>) -> bool {
    &&& forall|i: int| 0 <= i < s.len() ==> is_slug_char(#[trigger] s[i])
    &&& s.len() > 0 ==> s[0] != '-' && s[s.len() - 1] != '-'
    &&& forall|i: int| 0 <= i < s.len() - 1 ==> !(#[trigger] s[i] == '-' && s[i + 1] == '-')
}

/// `slugify` of the crate `slug`. The contract gives the result its name and
/// says what the crate promises of every slug: it is made of lower-case ASCII
/// letters, digits and hyphens, has no hyphen at either end and no two
/// hyphens in a row.
#[verifier::external_body]
fn slug_of(text: &str) -> (r: String)
    ensures
        r@ == slug_text(text@),
        is_slug(r@),
{
    slugify(text)
}

/// `matching` of the crate `zipcodes`, on its own table: the city and the
/// state of the first entry found. The contract only gives the result its
/// name. The code is to be ASCII, since `matching` slices the trimmed code
/// after its fifth byte.
#[verifier::external_body]
fn lookup_zip(zip: &str) -> (r: Option<(String, String)>)
    requires
        is_ascii_text(zip@),
    ensures
        match r {
            Some((city, state)) => place_of_zip(zip@) == Some((city@, state@)),
            None => place_of_zip(zip@) is None,
        },
{
    match zipcodes::matching(zip, None) {
        Ok(found) => found.first().map(|z| (z.city.clone(), z.state.clone())),
        Err(_) => None,
    }
}

/// All characters of `text` are ASCII.
pub open spec fn is_ascii_text(text: Seq<char>) -> bool {
    forall|i: int| 0 <= i < text.len() ==> (#[trigger] text[i]) <= '\x7f'
}

/// `text` is empty or white space only.
pub open spec fn is_blank(text: Seq<char>) -> bool {
    trimmed(text).len() == 0
}

/// Whether `text` is empty or white space only.
pub fn is_blank_text(text: &str) -> (r: bool)
    ensures
        r == is_blank(text@),
{
    let chars = to_chars(text);
    let kept = trim_exec(&chars);
    kept.len() == 0
}

/// Whether all characters of `text` are ASCII.
pub(crate) fn is_ascii_exec(text: &Vec<char>) -> (r: bool)
    ensures
        r == is_ascii_text(text@),
{
    let mut i: usize = 0;
    while i < text.len()
        invariant
            i <= text.len(),
            forall|j: int| 0 <= j < i ==> (#[trigger] text@[j]) <= '\x7f',
        decreases text.len() - i,
    {
        if text[i] > '\x7f' {
            return false;
        }
        i += 1;
    }
    true
}

/// A client as the answers of an operator give it, with the identifier of
/// its directory.
#[derive(Clone, Debug)]
pub struct NewClient {
    pub id: String,
    pub config: ClientConfig,
}

/// The name that a client is known by: the company's name without the
/// white space around it, or the person's name where no company is given.
pub open spec fn client_key(company: Seq<char>, person: Seq<char>) -> Seq<char> {
    if is_blank(company) {
        person
    } else {
        trimmed(company)
    }
}

/// `client` is the client that the answers give. A client without a company
/// is named by its contact person, after the label `Attn: `; its identifier
/// is the slug of the company's, or else of the person's, name.
pub open spec fn client_of_answers(
    client: NewClient,
    company: Seq<char>,
    person: Seq<char>,
    email: Seq<char>,
    billing_address: Option<Address>,
) -> bool {
    &&& client.id@ == slug_text(client_key(company, person))
    &&& is_slug(client.id@)
    &&& client.config.name@ == if is_blank(company) {
        ATTN_PREFIX@ + person
    } else {
        trimmed(company)
    }
    &&& client.config.attn.deep_view() == if is_blank(company) {
        None
    } else {
        Some(person)
    }
    &&& client.config.email.deep_view() == if is_blank(email) {
        None
    } else {
        Some(email)
    }
    &&& client.config.billing_address == billing_address
    &&& client.config.projects@.len() == 0
}

/// The client that the answers of an operator give.
pub fn new_client(
    company: &str,
    person: &str,
    email: &str,
    billing_address: Option<Address>,
) -> (r: NewClient)
    ensures
        client_of_answers(r, company@, person@, email@, billing_address),
{
    let company_chars = to_chars(company);
    let kept = trim_exec(&company_chars);
    let person_chars = to_chars(person);
    let no_company = kept.len() == 0;
    let (id, name, attn) = if no_company {
        let prefix = to_chars(ATTN_PREFIX);
        let full = concat_exec(&prefix, &person_chars);
        (slug_of(person), from_chars(&full), None)
    } else {
        let company_name = from_chars(&kept);
        let contact = from_chars(&person_chars);
        let attn = Some(contact);
        assert(attn.deep_view() == Some(person@));
        (slug_of(company_name.as_str()), company_name, attn)
    };
    let mail = if is_blank_text(email) {
        None
    } else {
        let chars = to_chars(email);
        let m = Some(from_chars(&chars));
        assert(m.deep_view() == Some(email@));
        m
    };
    NewClient {
        id,
        config: ClientConfig { name, attn, email: mail, billing_address, projects: Vec::new() },
    }
}

/// `project` is the project that the answers give: it has the address, the
/// name unless that is blank, and the slug of the street as its identifier.
pub open spec fn project_of_answers(project: Project, name: Seq<char>, address: Address) -> bool {
    &&& project.id@ == slug_text(address.street@)
    &&& is_slug(project.id@)
    &&& project.name.deep_view() == if is_blank(name) {
        None
    } else {
        Some(name)
    }
    &&& project.address == address
}

/// The project that the answers of an operator give.
pub fn new_project(name: &str, address: Address) -> (r: Project)
    ensures
        project_of_answers(r, name@, address),
{
    let id = slug_of(address.street.as_str());
    let named = if is_blank_text(name) {
        None
    } else {
        let chars = to_chars(name);
        let n = Some(from_chars(&chars));
        assert(n.deep_view() == Some(name@));
        n
    };
    Project { id, name: named, address }
}

/// The label that a project is offered by: its name, or `Project` where it
/// has none, the separator, and its street.
pub open spec fn label_text(project: Project) -> Seq<char> {
    (match project.name {
        Some(name) => name@,
        None => UNNAMED_PROJECT@,
    }) + LABEL_SEPARATOR@ + project.address.street@
}

/// The label that `project` is offered by.
pub fn project_label(project: &Project) -> (r: String)
    ensures
        r@ == label_text(*project),
{
    let name = match &project.name {
        Some(n) => to_chars(n.as_str()),
        None => to_chars(UNNAMED_PROJECT),
    };
    let separator = to_chars(LABEL_SEPARATOR);
    let street = to_chars(project.address.street.as_str());
    let head = concat_exec(&name, &separator);
    let all = concat_exec(&head, &street);
    from_chars(&all)
}

/// The labels of the projects of a client, in their order.
pub fn project_labels(projects: &Vec<Project>) -> (r: Vec<String>)
    ensures
        r@.len() == projects@.len(),
        forall|i: int| 0 <= i < r@.len() ==> (#[trigger] r@[i])@ == label_text(projects@[i]),
{
    let mut labels: Vec<String> = Vec::new();
    let mut i: usize = 0;
    while i < projects.len()
        invariant
            i <= projects.len(),
            labels@.len() == i,
            forall|j: int| 0 <= j < i ==> (#[trigger] labels@[j])@ == label_text(projects@[j]),
        decreases projects.len() - i,
    {
        labels.push(project_label(&projects[i]));
        i += 1;
    }
    labels
}

/// Where the last piece of `s` begins, when `s` is cut at every `sep` found
/// from the left: the scan stands at `at`, and the piece at hand began at
/// `start`.
pub open spec fn last_piece_start(s: Seq<char>, sep: Seq<char>, at: int, start: int) -> int
    decreases s.len() - at,
{
    if sep.len() == 0 || at < 0 || at + sep.len() > s.len() {
        start
    } else if matches_at(s, sep, at) {
        last_piece_start(s, sep, at + sep.len(), at + sep.len())
    } else {
        last_piece_start(s, sep, at + 1, start)
    }
}

/// The street that the label `label` of a project ends with: what follows
/// its last separator, or the whole label where it has none.
pub open spec fn street_of_label(label: Seq<char>) -> Seq<char> {
    label.skip(last_piece_start(label, LABEL_SEPARATOR@, 0, 0))
}

/// `at` is the first of `projects` at the street `street`.
pub open spec fn first_at_street(projects: Seq<Project>, street: Seq<char>, at: int) -> bool {
    &&& 0 <= at < projects.len()
    &&& projects[at].address.street@ == street
    &&& forall|j: int| 0 <= j < at ==> (#[trigger] projects[j]).address.street@ != street
}

/// The street that the label of a project ends with.
pub fn label_street(label: &str) -> (r: String)
    ensures
        r@ == street_of_label(label@),
{
    let chars = to_chars(label);
    let sep = to_chars(LABEL_SEPARATOR);
    proof {
        reveal_strlit(" | ");
    }
    let n = chars.len();
    let mut at: usize = 0;
    let mut start: usize = 0;
    while at < n && sep.len() <= n - at
        invariant
            at <= n,
            start <= at,
            n == chars.len(),
            sep@ == LABEL_SEPARATOR@,
            sep.len() == 3,
            last_piece_start(chars@, sep@, 0, 0) == last_piece_start(
                chars@,
                sep@,
                at as int,
                start as int,
            ),
        decreases n - at,
    {
        if matches_at_exec(&chars, &sep, at) {
            at = at + sep.len();
            start = at;
        } else {
            at += 1;
        }
    }
    let street = slice_exec(&chars, start, n);
    assert(chars@.subrange(start as int, n as int) == chars@.skip(start as int));
    from_chars(&street)
}

/// The project that the label `label` was offered for: the first of
/// `projects` at the street that the label ends with. `None` where no
/// project is at that street.
pub fn find_project(projects: &Vec<Project>, label: &str) -> (r: Option<usize>)
    ensures
        match r {
            Some(at) => first_at_street(projects@, street_of_label(label@), at as int),
            None => forall|j: int|
                0 <= j < projects@.len() ==> (#[trigger] projects@[j]).address.street@
                    != street_of_label(label@),
        },
{
    let street = label_street(label);
    let mut i: usize = 0;
    while i < projects.len()
        invariant
            i <= projects.len(),
            street@ == street_of_label(label@),
            forall|j: int| 0 <= j < i ==> (#[trigger] projects@[j]).address.street@ != street@,
        decreases projects.len() - i,
    {
        if projects[i].address.street == street {
            return Some(i);
        }
        i += 1;
    }
    None
}

/// Whether an address is to be asked for after the street was given: always
/// where an address is required, and where it is not, unless the street was
/// left blank.
pub fn address_wanted(is_optional: bool, street: &str) -> (r: bool)
    ensures
        r == !(is_optional && is_blank(street@)),
{
    !(is_optional && is_blank_text(street))
}

/// The city and the state to propose for the postal code `zip`: those of the
/// table, and nothing where the code is blank, not ASCII or unknown.
pub open spec fn defaults_of_zip(zip: Seq<char>) -> (Seq<char>, Seq<char>) {
    if is_blank(zip) || !is_ascii_text(zip) {
        (Seq::empty(), Seq::empty())
    } else {
        match place_of_zip(zip) {
            Some(place) => place,
            None => (Seq::empty(), Seq::empty()),
        }
    }
}

/// The city and the state to propose for the postal code `zip`.
pub fn address_defaults(zip: &str) -> (r: (String, String))
    ensures
        (r.0@, r.1@) == defaults_of_zip(zip@),
{
    let chars = to_chars(zip);
    if is_blank_text(zip) || !is_ascii_exec(&chars) {
        return (String::new(), String::new());
    }
    match lookup_zip(zip) {
        Some((city, state)) => (city, state),
        None => (String::new(), String::new()),
    }
}

/// `path` with a leading `~` replaced by the home directory, where that is
/// known.
pub open spec fn home_expanded(path: Seq<char>, home: Option<Seq<char>>) -> Seq<char> {
    match home {
        Some(dir) => if path.len() > 0 && path[0] == HOME_MARK {
            dir + path.skip(1)
        } else {
            path
        },
        None => path,
    }
}

/// `path` with a leading `~` replaced by the home directory `home`, where
/// that is known.
pub fn expand_home(path: &str, home: Option<&str>) -> (r: String)
    ensures
        r@ == home_expanded(path@, home.deep_view()),
{
    let chars = to_chars(path);
    match home {
        Some(dir) => {
            if chars.len() > 0 && chars[0] == HOME_MARK {
                let head = to_chars(dir);
                let tail = slice_exec(&chars, 1, chars.len());
                assert(chars@.subrange(1, chars.len() as int) == chars@.skip(1));
                let all = concat_exec(&head, &tail);
                from_chars(&all)
            } else {
                from_chars(&chars)
            }
        },
        None => from_chars(&chars),
    }
}

/// The label that the output folder of `client` in `year` is offered by.
pub open spec fn folder_label_text(year: Seq<char>, client: Seq<char>) -> Seq<char> {
    year + FOLDER_SEPARATOR@ + client
}

/// The label that the output folder of `client` in `year` is offered by.
pub fn folder_label(year: &str, client: &str) -> (r: String)
    ensures
        r@ == folder_label_text(year@, client@),
{
    let head = to_chars(year);
    let separator = to_chars(FOLDER_SEPARATOR);
    let tail = to_chars(client);
    let both = concat_exec(&head, &separator);
    let all = concat_exec(&both, &tail);
    from_chars(&all)
}

/// No label comes before one that stands ahead of it: the labels fall.
pub open spec fn labels_fall(labels: Seq<Seq<char>>) -> bool {
    forall|i: int, j: int|
        0 <= i < j < labels.len() ==> !lex_less(#[trigger] labels[i], #[trigger] labels[j])
}

/// Puts `label` among the falling `labels` at its place.
fn insert_label(labels: &mut Vec<String>, label: String)
    requires
        labels_fall(old(labels).deep_view()),
    ensures
        labels_fall(final(labels).deep_view()),
        final(labels).deep_view().to_multiset() == old(labels).deep_view().to_multiset().insert(
            label@,
        ),
{
    let chars = to_chars(label.as_str());
    let ghost before = labels.deep_view();
    let mut p: usize = 0;
    let mut found = false;
    while p < labels.len() && !found
        invariant
            p <= labels.len(),
            *labels == *old(labels),
            before == labels.deep_view(),
            chars@ == label@,
            forall|i: int| 0 <= i < p ==> !lex_less(#[trigger] before[i], label@),
            found ==> p < labels.len() && lex_less(before[p as int], label@),
        decreases labels.len() - p + if found {
            0int
        } else {
            1int
        },
    {
        let other = to_chars(labels[p].as_str());
        assert(before[p as int] == labels@[p as int]@);
        if lex_less_exec(&other, &chars) {
            found = true;
        } else {
            p += 1;
        }
    }
    proof {
        assert forall|j: int| p <= j < before.len() implies !lex_less(
            label@,
            #[trigger] before[j],
        ) by {
            assert(lex_less(before[p as int], label@));
            if lex_less(label@, before[j]) {
                lemma_lex_transitive(before[p as int], label@, before[j]);
                if j == p {
                    lemma_lex_asymmetric(before[p as int], label@);
                }
            }
        }
    }
    labels.insert(p, label);
    proof {
        let after = labels.deep_view();
        assert(after =~= before.insert(p as int, label@));
        vstd::seq_lib::to_multiset_insert(before, p as int, label@);
        assert forall|i: int, j: int| 0 <= i < j < after.len() implies !lex_less(
            #[trigger] after[i],
            #[trigger] after[j],
        ) by {
            if j < p {
                assert(after[i] == before[i] && after[j] == before[j]);
            } else if j == p {
                assert(after[i] == before[i] && after[j] == label@);
            } else if i < p {
                assert(after[i] == before[i] && after[j] == before[j - 1]);
            } else if i == p {
                assert(after[i] == label@ && after[j] == before[j - 1]);
            } else {
                assert(after[i] == before[i - 1] && after[j] == before[j - 1]);
            }
        }
    }
}

/// The labels of the output folders in the order in which they are offered:
/// falling, so that the latest year comes first.
pub fn folder_options(labels: &Vec<String>) -> (r: Vec<String>)
    ensures
        labels_fall(r.deep_view()),
        r.deep_view().to_multiset() == labels.deep_view().to_multiset(),
{
    let mut out: Vec<String> = Vec::new();
    let mut k: usize = 0;
    proof {
        assert(labels.deep_view().take(0) =~= out.deep_view());
    }
    while k < labels.len()
        invariant
            k <= labels.len(),
            labels_fall(out.deep_view()),
            out.deep_view().to_multiset() == labels.deep_view().take(k as int).to_multiset(),
        decreases labels.len() - k,
    {
        let label = labels[k].clone();
        proof {
            let all = labels.deep_view();
            assert(all[k as int] == labels@[k as int]@);
            assert(all.take(k + 1) =~= all.take(k as int).push(all[k as int]));
            vstd::seq_lib::to_multiset_build(all.take(k as int), all[k as int]);
        }
        insert_label(&mut out, label);
        k += 1;
    }
    proof {
        assert(labels.deep_view().take(k as int) =~= labels.deep_view());
    }
    out
}

/// The year and the client of the folder that the label `choice` stands
/// for: what stands before and after its separator. `None` where the label
/// has no separator, or more than one.
pub open spec fn folder_of_choice(choice: Seq<char>) -> Option<(Seq<char>, Seq<char>)> {
    let sep = FOLDER_SEPARATOR@;
    let q = first_match(choice, sep);
    if q < choice.len() && first_match(choice.skip(q + sep.len()), sep) == choice.skip(
        q + sep.len(),
    ).len() {
        Some((choice.take(q), choice.skip(q + sep.len())))
    } else {
        None
    }
}

/// The year and the client of the folder that the label `choice` stands for.
pub fn parse_folder_choice(choice: &str) -> (r: Option<(String, String)>)
    ensures
        match r {
            Some((year, client)) => folder_of_choice(choice@) == Some((year@, client@)),
            None => folder_of_choice(choice@) is None,
        },
{
    let chars = to_chars(choice);
    let sep = to_chars(FOLDER_SEPARATOR);
    proof {
        reveal_strlit(" / ");
        lemma_first_match(chars@, sep@);
    }
    let q = match find_first(&chars, &sep) {
        Some(q) => q,
        None => {
            return None;
        },
    };
    let year = slice_exec(&chars, 0, q);
    let rest = slice_exec(&chars, q + sep.len(), chars.len());
    proof {
        assert(chars@.subrange(0, q as int) == chars@.take(q as int));
        assert(chars@.subrange(q + sep.len(), chars.len() as int) == chars@.skip(q + sep.len()));
    }
    match find_first(&rest, &sep) {
        Some(_) => None,
        None => Some((from_chars(&year), from_chars(&rest))),
    }
}

} // verus!
