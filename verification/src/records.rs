//! The record type, the error taxonomy, and the builder that turns a document
//! into a validated, sorted list of records.
use core::cmp::Ordering;
use vstd::prelude::*;
use vstd::std_specs::cmp::{PartialEqSpec, PartialOrdSpec};
use vstd::string::StringExecFns;
use crate::document::{Section, pairs_of, lookup, get_value};
use crate::order::{name_le, str_le};
use crate::url_check::{is_valid_url, url_parses};

verus! {

/// One product's per-country links, one optional field per recognized country
/// code. Records compare by `name` alone: two records with equal names and
/// different fields count as equal, which callers must not mistake for full
/// structural equality.
pub struct Link {
    pub name: String,
    pub australia: Option<String>,
    pub brazil: Option<String>,
    pub canada: Option<String>,
    pub china: Option<String>,
    pub france: Option<String>,
    pub germany: Option<String>,
    pub india: Option<String>,
    pub italy: Option<String>,
    pub japan: Option<String>,
    pub mexico: Option<String>,
    pub spain: Option<String>,
    pub uk: Option<String>,
    pub us: Option<String>,
}

/// The mathematical content of a `Link`: its name and the 13 optional values,
/// as sequences of characters.
#[verifier::ext_equal]
pub ghost struct LinkV {
    pub name: Seq<char>,
    pub australia: Option<Seq<char>>,
    pub brazil: Option<Seq<char>>,
    pub canada: Option<Seq<char>>,
    pub china: Option<Seq<char>>,
    pub france: Option<Seq<char>>,
    pub germany: Option<Seq<char>>,
    pub india: Option<Seq<char>>,
    pub italy: Option<Seq<char>>,
    pub japan: Option<Seq<char>>,
    pub mexico: Option<Seq<char>>,
    pub spain: Option<Seq<char>>,
    pub uk: Option<Seq<char>>,
    pub us: Option<Seq<char>>,
}

impl View for Link {
    type V = LinkV;

    open spec fn view(&self) -> LinkV {
        LinkV {
            name: self.name@,
            australia: self.australia.deep_view(),
            brazil: self.brazil.deep_view(),
            canada: self.canada.deep_view(),
            china: self.china.deep_view(),
            france: self.france.deep_view(),
            germany: self.germany.deep_view(),
            india: self.india.deep_view(),
            italy: self.italy.deep_view(),
            japan: self.japan.deep_view(),
            mexico: self.mexico.deep_view(),
            spain: self.spain.deep_view(),
            uk: self.uk.deep_view(),
            us: self.us.deep_view(),
        }
    }
}

impl PartialEq for Link {
    /// Records with equal names are equal, whatever their fields hold.
    fn eq(&self, other: &Self) -> (r: bool) {
        self.name.eq(&other.name)
    }
}

impl vstd::std_specs::cmp::PartialEqSpecImpl for Link {
    open spec fn obeys_eq_spec() -> bool {
        true
    }

    open spec fn eq_spec(&self, other: &Self) -> bool {
        self.name@ == other.name@
    }
}

impl PartialOrd for Link {
    /// Records order by name alone, lexicographically over the UTF-8 bytes.
    fn partial_cmp(&self, other: &Self) -> (r: Option<Ordering>) {
        if self.name.eq(&other.name) {
            Some(Ordering::Equal)
        } else if str_le(self.name.as_str(), other.name.as_str()) {
            Some(Ordering::Less)
        } else {
            Some(Ordering::Greater)
        }
    }
}

impl vstd::std_specs::cmp::PartialOrdSpecImpl for Link {
    open spec fn obeys_partial_cmp_spec() -> bool {
        true
    }

    open spec fn partial_cmp_spec(&self, other: &Self) -> Option<Ordering> {
        if self.name@ == other.name@ {
            Some(Ordering::Equal)
        } else if name_le(self.name@, other.name@) {
            Some(Ordering::Less)
        } else {
            Some(Ordering::Greater)
        }
    }
}

/// Why a document was rejected: the first failure, in section order.
#[derive(Debug)]
pub enum LinkError {
    /// The document holds no section at all.
    NoLinksFound,
    /// Some section has no name.
    MissingSectionName,
    /// The named section holds no key/value pair.
    EmptySection(String),
    /// The given value does not parse as a URL.
    InvalidLink(String),
}

/// The description each error carries, word for word.
pub open spec fn message_of(e: LinkError) -> Seq<char> {
    match e {
        LinkError::NoLinksFound => "No link found."@,
        LinkError::MissingSectionName => "A section has no name."@,
        LinkError::EmptySection(name) => "Section "@ + name@ + " has no links."@,
        LinkError::InvalidLink(value) => "Invalid link: \""@ + value@ + "\"."@,
    }
}

impl LinkError {
    /// Renders the error as its human-readable description.
    pub fn message(&self) -> (m: String)
        ensures
            m@ == message_of(*self),
    {
        match self {
            LinkError::NoLinksFound => "No link found.".to_owned(),
            LinkError::MissingSectionName => "A section has no name.".to_owned(),
            LinkError::EmptySection(name) => {
                let mut m: String = "Section ".to_owned();
                m.append(name.as_str());
                m.append(" has no links.");
                m
            },
            LinkError::InvalidLink(value) => {
                let mut m: String = "Invalid link: \"".to_owned();
                m.append(value.as_str());
                m.append("\".");
                m
            },
        }
    }
}

/// Every value of the section parses as a URL.
pub open spec fn section_values_ok(s: Section) -> bool {
    forall|i: int| 0 <= i < s.entries@.len() ==> is_valid_url(#[trigger] s.entries@[i].1@)
}

/// The section passes validation: named, non-empty, all values valid URLs.
pub open spec fn section_ok(s: Section) -> bool {
    &&& s.name is Some
    &&& s.entries@.len() > 0
    &&& section_values_ok(s)
}

/// The first value, in entry order, that does not parse as a URL.
pub open spec fn first_invalid_value(entries: Seq<(String, String)>) -> Option<Seq<char>>
    decreases entries.len(),
{
    if entries.len() == 0 {
        None
    } else if !is_valid_url(entries[0].1@) {
        Some(entries[0].1@)
    } else {
        first_invalid_value(entries.drop_first())
    }
}

pub proof fn lemma_first_invalid_none(entries: Seq<(String, String)>)
    ensures
        (first_invalid_value(entries) is None) <==> (forall|i: int|
            0 <= i < entries.len() ==> is_valid_url(#[trigger] entries[i].1@)),
    decreases entries.len(),
{
    if entries.len() > 0 {
        lemma_first_invalid_none(entries.drop_first());
        assert forall|i: int|
            0 <= i < entries.len() && (forall|j: int|
                0 <= j < entries.drop_first().len() ==> is_valid_url(
                    #[trigger] entries.drop_first()[j].1@,
                )) && is_valid_url(entries[0].1@) implies is_valid_url(
            #[trigger] entries[i].1@,
        ) by {
            if i > 0 {
                assert(entries[i] == entries.drop_first()[i - 1]);
            }
        }
        assert forall|j: int|
            0 <= j < entries.drop_first().len() && (forall|i: int|
                0 <= i < entries.len() ==> is_valid_url(
                    #[trigger] entries[i].1@,
                )) implies is_valid_url(#[trigger] entries.drop_first()[j].1@) by {
            assert(entries.drop_first()[j] == entries[j + 1]);
        }
    }
}

/// Walks the entries in order and hands out the first value that the URL
/// parser rejects, if there is one.
fn first_invalid(entries: &Vec<(String, String)>) -> (r: Option<String>)
    ensures
        match r {
            Some(v) => first_invalid_value(entries@) == Some(v@),
            None => first_invalid_value(entries@) is None,
        },
{
    let n = entries.len();
    let mut i: usize = 0;
    proof {
        assert(entries@.skip(0) =~= entries@);
    }
    while i < n
        invariant
            n == entries@.len(),
            i <= n,
            first_invalid_value(entries@) == first_invalid_value(entries@.skip(i as int)),
        decreases n - i,
    {
        assert(entries@.skip(i as int)[0] == entries@[i as int]);
        if !url_parses(entries[i].1.as_str()) {
            return Some(entries[i].1.clone());
        }
        proof {
            assert(entries@.skip(i as int).drop_first() =~= entries@.skip(i + 1));
        }
        i = i + 1;
    }
    assert(entries@.skip(n as int).len() == 0);
    None
}

/// The record a valid section yields: its name, and for each of the 13
/// recognized country codes the value of that key, if present.
pub open spec fn link_v_of(s: Section) -> LinkV {
    let ps = pairs_of(s.entries@);
    LinkV {
        name: s.name->0@,
        australia: lookup(ps, "au"@),
        brazil: lookup(ps, "br"@),
        canada: lookup(ps, "ca"@),
        china: lookup(ps, "cn"@),
        france: lookup(ps, "fr"@),
        germany: lookup(ps, "de"@),
        india: lookup(ps, "in"@),
        italy: lookup(ps, "it"@),
        japan: lookup(ps, "jp"@),
        mexico: lookup(ps, "mx"@),
        spain: lookup(ps, "es"@),
        uk: lookup(ps, "uk"@),
        us: lookup(ps, "us"@),
    }
}

/// Builds the record of one named section: each recognized key's value goes to
/// its field; unrecognized keys are ignored.
fn section_to_link(s: &Section) -> (l: Link)
    requires
        s.name is Some,
    ensures
        l@ == link_v_of(*s),
{
    let name = match &s.name {
        Some(n) => n.clone(),
        None => vstd::pervasive::unreached(),
    };
    let k_au: String = "au".to_owned();
    let k_br: String = "br".to_owned();
    let k_ca: String = "ca".to_owned();
    let k_cn: String = "cn".to_owned();
    let k_fr: String = "fr".to_owned();
    let k_de: String = "de".to_owned();
    let k_in: String = "in".to_owned();
    let k_it: String = "it".to_owned();
    let k_jp: String = "jp".to_owned();
    let k_mx: String = "mx".to_owned();
    let k_es: String = "es".to_owned();
    let k_uk: String = "uk".to_owned();
    let k_us: String = "us".to_owned();
    let l = Link {
        name,
        australia: get_value(&s.entries, &k_au),
        brazil: get_value(&s.entries, &k_br),
        canada: get_value(&s.entries, &k_ca),
        china: get_value(&s.entries, &k_cn),
        france: get_value(&s.entries, &k_fr),
        germany: get_value(&s.entries, &k_de),
        india: get_value(&s.entries, &k_in),
        italy: get_value(&s.entries, &k_it),
        japan: get_value(&s.entries, &k_jp),
        mexico: get_value(&s.entries, &k_mx),
        spain: get_value(&s.entries, &k_es),
        uk: get_value(&s.entries, &k_uk),
        us: get_value(&s.entries, &k_us),
    };
    proof {
        assert(l@ =~= link_v_of(*s));
    }
    l
}

/// The sort order of records: by name alone.
pub open spec fn link_le(a: LinkV, b: LinkV) -> bool {
    name_le(a.name, b.name)
}

/// Inserts `l` after every element it is not strictly below: where a stable
/// sort puts an element that arrived last.
pub open spec fn insert_sorted(l: LinkV, s: Seq<LinkV>) -> Seq<LinkV>
    decreases s.len(),
{
    if s.len() == 0 {
        seq![l]
    } else if link_le(s.last(), l) {
        s.push(l)
    } else {
        insert_sorted(l, s.drop_last()).push(s.last())
    }
}

/// The stable sort of a sequence of records, by name.
pub open spec fn sort_by_name(s: Seq<LinkV>) -> Seq<LinkV>
    decreases s.len(),
{
    if s.len() == 0 {
        Seq::empty()
    } else {
        insert_sorted(s.last(), sort_by_name(s.drop_last()))
    }
}

/// Names appear in ascending order.
pub open spec fn sorted_by_name(s: Seq<LinkV>) -> bool {
    forall|i: int, j: int| 0 <= i < j < s.len() ==> name_le(#[trigger] s[i].name, #[trigger] s[j].name)
}

/// Inserting at the position the executable search finds is what
/// `insert_sorted` does.
proof fn lemma_insert_sorted_at(l: LinkV, s: Seq<LinkV>, j: int)
    requires
        0 <= j <= s.len(),
        forall|k: int| j <= k < s.len() ==> !link_le(#[trigger] s[k], l),
        j > 0 ==> link_le(s[j - 1], l),
    ensures
        insert_sorted(l, s) == s.insert(j, l),
    decreases s.len(),
{
    if s.len() == 0 {
        assert(insert_sorted(l, s) =~= s.insert(0, l));
    } else if link_le(s.last(), l) {
        assert(j == s.len());
        assert(insert_sorted(l, s) =~= s.insert(j, l));
    } else {
        assert(j < s.len());
        lemma_insert_sorted_at(l, s.drop_last(), j);
        assert(insert_sorted(l, s) =~= s.insert(j, l));
    }
}

/// Puts one record into an already sorted vector, after every record whose
/// name is not above its own.
fn insert_link(links: &mut Vec<Link>, l: Link)
    ensures
        final(links)@.map_values(|x: Link| x@) == insert_sorted(
            l@,
            old(links)@.map_values(|x: Link| x@),
        ),
{
    let ghost m = links@.map_values(|x: Link| x@);
    let mut j: usize = links.len();
    loop
        invariant
            *links == *old(links),
            m == links@.map_values(|x: Link| x@),
            j <= m.len(),
            forall|k: int| j <= k < m.len() ==> !link_le(#[trigger] m[k], l@),
        ensures
            *links == *old(links),
            j <= m.len(),
            forall|k: int| j <= k < m.len() ==> !link_le(#[trigger] m[k], l@),
            j > 0 ==> link_le(m[j - 1], l@),
        decreases j,
    {
        if j == 0 {
            break;
        }
        if str_le(links[j - 1].name.as_str(), l.name.as_str()) {
            break;
        }
        j = j - 1;
    }
    proof {
        lemma_insert_sorted_at(l@, m, j as int);
    }
    links.insert(j, l);
    proof {
        assert(links@.map_values(|x: Link| x@) =~= m.insert(j as int, l@));
    }
}

/// Sorts the records by name, stably: records with equal names keep their
/// relative order.
fn sort_links(links: Vec<Link>) -> (r: Vec<Link>)
    ensures
        r@.map_values(|x: Link| x@) == sort_by_name(links@.map_values(|x: Link| x@)),
{
    let ghost m = links@.map_values(|x: Link| x@);
    let mut rest = links;
    let mut out: Vec<Link> = Vec::new();
    proof {
        assert(m.take(0) =~= out@.map_values(|x: Link| x@));
        assert(m.skip(0) =~= rest@.map_values(|x: Link| x@));
    }
    loop
        invariant
            rest@.map_values(|x: Link| x@) == m.skip(m.len() - rest@.len()),
            rest@.len() <= m.len(),
            out@.map_values(|x: Link| x@) == sort_by_name(m.take(m.len() - rest@.len())),
        ensures
            rest@.len() == 0,
            out@.map_values(|x: Link| x@) == sort_by_name(m.take(m.len() - rest@.len())),
        decreases rest@.len(),
    {
        if rest.len() == 0 {
            break;
        }
        let ghost i = m.len() - rest@.len();
        let ghost r_pre = rest@;
        let l = rest.remove(0);
        proof {
            assert(r_pre.map_values(|x: Link| x@)[0] == l@);
            assert(l@ == m[i]);
        }
        insert_link(&mut out, l);
        proof {
            assert(rest@ =~= r_pre.drop_first());
            assert forall|k: int| 0 <= k < rest@.len() implies rest@.map_values(|x: Link| x@)[k]
                == #[trigger] (m.skip(i + 1)[k]) by {
                assert(rest@[k] == r_pre[k + 1]);
                assert(r_pre.map_values(|x: Link| x@)[k + 1] == r_pre[k + 1]@);
                assert(m.skip(i as int)[k + 1] == m[i + 1 + k]);
                assert(m.skip(i + 1)[k] == m[i + 1 + k]);
            }
            assert(rest@.map_values(|x: Link| x@) =~= m.skip(i + 1));
            assert(m.take(i + 1).drop_last() =~= m.take(i));
            assert(m.take(i + 1).last() == m[i]);
        }
    }
    proof {
        assert(m.take(m.len() as int) =~= m);
    }
    out
}

/// What the error says of one failing section: the checks run in the order
/// name, emptiness, URL validity, and the first to fail names the error.
pub open spec fn section_error_matches(s: Section, e: LinkError) -> bool {
    if s.name is None {
        e is MissingSectionName
    } else if s.entries@.len() == 0 {
        e matches LinkError::EmptySection(name) && name@ == s.name->0@
    } else {
        e matches LinkError::InvalidLink(value) && Some(value@) == first_invalid_value(s.entries@)
    }
}

/// The error a document yields: `NoLinksFound` on an empty document, else the
/// error of the first section that fails validation.
pub open spec fn build_err_matches(secs: Seq<Section>, e: LinkError) -> bool {
    if secs.len() == 0 {
        e is NoLinksFound
    } else {
        exists|i: int|
            0 <= i < secs.len() && !section_ok(#[trigger] secs[i]) && (forall|j: int|
                0 <= j < i ==> section_ok(#[trigger] secs[j])) && section_error_matches(secs[i], e)
    }
}

/// The records of the sections, one per section, in document order.
pub open spec fn records_of(secs: Seq<Section>) -> Seq<LinkV> {
    secs.map(|i: int, s: Section| link_v_of(s))
}

/// Turns a parsed document into its sorted records, or the first validation
/// error in section order: an empty document is `NoLinksFound`; an unnamed
/// section is `MissingSectionName`; a named section without entries is
/// `EmptySection`; a value the URL parser rejects is `InvalidLink` carrying
/// that value. On success there is one record per section, stably sorted by
/// name.
pub fn ini_to_links(doc: &Vec<Section>) -> (r: Result<Vec<Link>, LinkError>)
    ensures
        match r {
            Ok(links) => {
                &&& doc@.len() > 0
                &&& forall|i: int| 0 <= i < doc@.len() ==> section_ok(#[trigger] doc@[i])
                &&& links@.map_values(|x: Link| x@) == sort_by_name(records_of(doc@))
                &&& sorted_by_name(links@.map_values(|x: Link| x@))
            },
            Err(e) => build_err_matches(doc@, e),
        },
{
    if doc.len() == 0 {
        return Err(LinkError::NoLinksFound);
    }
    let mut links: Vec<Link> = Vec::new();
    let n = doc.len();
    let mut i: usize = 0;
    proof {
        assert(links@.map_values(|x: Link| x@) =~= records_of(doc@.take(0)));
    }
    while i < n
        invariant
            n == doc@.len(),
            i <= n,
            forall|j: int| 0 <= j < i ==> section_ok(#[trigger] doc@[j]),
            links@.map_values(|x: Link| x@) == records_of(doc@.take(i as int)),
        decreases n - i,
    {
        let sec = &doc[i];
        match &sec.name {
            None => {
                let e = LinkError::MissingSectionName;
                proof {
                    assert(!section_ok(doc@[i as int]));
                    assert(section_error_matches(doc@[i as int], e));
                }
                return Err(e);
            },
            Some(name) => {
                if sec.entries.len() == 0 {
                    let e = LinkError::EmptySection(name.clone());
                    proof {
                        assert(!section_ok(doc@[i as int]));
                        assert(section_error_matches(doc@[i as int], e));
                    }
                    return Err(e);
                }
                match first_invalid(&sec.entries) {
                    Some(value) => {
                        let e = LinkError::InvalidLink(value);
                        proof {
                            lemma_first_invalid_none(sec.entries@);
                            assert(!section_ok(doc@[i as int]));
                            assert(section_error_matches(doc@[i as int], e));
                        }
                        return Err(e);
                    },
                    None => {},
                }
                proof {
                    lemma_first_invalid_none(sec.entries@);
                    assert(section_ok(doc@[i as int]));
                }
                let l = section_to_link(sec);
                let ghost lv_pre = links@;
                links.push(l);
                proof {
                    let pre = records_of(doc@.take(i as int));
                    assert(lv_pre.map_values(|x: Link| x@).len() == lv_pre.len());
                    assert(lv_pre.len() == i);
                    assert(links@ == lv_pre.push(l));
                    assert forall|k: int| 0 <= k < i + 1 implies links@.map_values(|x: Link| x@)[k]
                        == #[trigger] (records_of(doc@.take(i + 1))[k]) by {
                        assert(doc@.take(i + 1)[k] == doc@[k]);
                        if k < i {
                            assert(links@[k] == lv_pre[k]);
                            assert(lv_pre.map_values(|x: Link| x@)[k] == pre[k]);
                            assert(doc@.take(i as int)[k] == doc@[k]);
                            assert(pre[k] == link_v_of(doc@[k]));
                        } else {
                            assert(links@[k] == l);
                        }
                    }
                    assert(links@.map_values(|x: Link| x@) =~= records_of(doc@.take(i + 1)));
                }
            },
        }
        i = i + 1;
    }
    proof {
        assert(doc@.take(n as int) =~= doc@);
        lemma_sort_sorted(records_of(doc@));
    }
    let sorted = sort_links(links);
    Ok(sorted)
}

/// Comparison looks at the name alone: two records with equal names compare
/// as equal under `==` and order as equal, whatever their country fields hold.
pub proof fn lemma_compare_by_name_only(a: Link, b: Link)
    requires
        a.name@ == b.name@,
    ensures
        a.eq_spec(&b),
        a.partial_cmp_spec(&b) == Some(Ordering::Equal),
{
}

/// Length is preserved by sorting.
pub proof fn lemma_sort_len(s: Seq<LinkV>)
    ensures
        sort_by_name(s).len() == s.len(),
    decreases s.len(),
{
    if s.len() > 0 {
        lemma_sort_len(s.drop_last());
        lemma_insert_sorted_len(s.last(), sort_by_name(s.drop_last()));
    }
}

proof fn lemma_insert_sorted_len(l: LinkV, s: Seq<LinkV>)
    ensures
        insert_sorted(l, s).len() == s.len() + 1,
    decreases s.len(),
{
    if s.len() > 0 && !link_le(s.last(), l) {
        lemma_insert_sorted_len(l, s.drop_last());
    }
}

/// Everything in `insert_sorted(l, s)` is `l` or stems from `s`.
proof fn lemma_insert_sorted_elems(l: LinkV, s: Seq<LinkV>)
    ensures
        insert_sorted(l, s).len() == s.len() + 1,
        forall|k: int|
            0 <= k < insert_sorted(l, s).len() ==> (#[trigger] insert_sorted(l, s)[k] == l
                || s.contains(insert_sorted(l, s)[k])),
    decreases s.len(),
{
    lemma_insert_sorted_len(l, s);
    if s.len() == 0 {
    } else if link_le(s.last(), l) {
        assert forall|k: int| 0 <= k < s.push(l).len() implies (#[trigger] s.push(l)[k] == l
            || s.contains(s.push(l)[k])) by {
            if k < s.len() {
                assert(s.push(l)[k] == s[k]);
            }
        }
    } else {
        lemma_insert_sorted_elems(l, s.drop_last());
        let inner = insert_sorted(l, s.drop_last());
        assert forall|k: int| 0 <= k < inner.push(s.last()).len() implies (#[trigger] inner.push(
            s.last(),
        )[k] == l || s.contains(inner.push(s.last())[k])) by {
            if k < inner.len() {
                assert(inner.push(s.last())[k] == inner[k]);
                if inner[k] != l {
                    let m2 = choose|m2: int| 0 <= m2 < s.drop_last().len() && s.drop_last()[m2]
                        == inner[k];
                    assert(s[m2] == inner[k]);
                }
            } else {
                assert(s.contains(s.last()));
            }
        }
    }
}

/// Inserting into a sorted sequence keeps it sorted.
proof fn lemma_insert_sorted_sorted(l: LinkV, s: Seq<LinkV>)
    requires
        sorted_by_name(s),
    ensures
        sorted_by_name(insert_sorted(l, s)),
    decreases s.len(),
{
    if s.len() == 0 {
    } else if link_le(s.last(), l) {
        let out = s.push(l);
        assert forall|i: int, j: int| 0 <= i < j < out.len() implies name_le(
            #[trigger] out[i].name,
            #[trigger] out[j].name,
        ) by {
            if j == s.len() {
                if i < s.len() - 1 {
                    assert(name_le(s[i].name, s[s.len() - 1].name));
                    crate::order::lemma_name_le_trans(s[i].name, s.last().name, l.name);
                }
            }
        }
    } else {
        crate::order::lemma_name_le_total(s.last().name, l.name);
        assert(sorted_by_name(s.drop_last())) by {
            assert forall|i: int, j: int| 0 <= i < j < s.drop_last().len() implies name_le(
                #[trigger] s.drop_last()[i].name,
                #[trigger] s.drop_last()[j].name,
            ) by {
                assert(s.drop_last()[i] == s[i]);
                assert(s.drop_last()[j] == s[j]);
            }
        }
        lemma_insert_sorted_sorted(l, s.drop_last());
        lemma_insert_sorted_elems(l, s.drop_last());
        let inner = insert_sorted(l, s.drop_last());
        let out = inner.push(s.last());
        assert forall|i: int, j: int| 0 <= i < j < out.len() implies name_le(
            #[trigger] out[i].name,
            #[trigger] out[j].name,
        ) by {
            if j == inner.len() {
                assert(out[i] == inner[i]);
                if inner[i] == l {
                } else {
                    let m2 = choose|m2: int| 0 <= m2 < s.drop_last().len() && s.drop_last()[m2]
                        == inner[i];
                    assert(s[m2] == inner[i]);
                    assert(name_le(s[m2].name, s[s.len() - 1].name));
                }
            } else {
                assert(out[i] == inner[i]);
                assert(out[j] == inner[j]);
            }
        }
    }
}

/// The sort yields a sequence whose names ascend.
pub proof fn lemma_sort_sorted(s: Seq<LinkV>)
    ensures
        sorted_by_name(sort_by_name(s)),
    decreases s.len(),
{
    if s.len() > 0 {
        lemma_sort_sorted(s.drop_last());
        lemma_insert_sorted_sorted(s.last(), sort_by_name(s.drop_last()));
    }
}

proof fn lemma_insert_sorted_filter(l: LinkV, s: Seq<LinkV>, n: Seq<char>)
    ensures
        insert_sorted(l, s).filter(|x: LinkV| x.name == n) == if l.name == n {
            s.filter(|x: LinkV| x.name == n).push(l)
        } else {
            s.filter(|x: LinkV| x.name == n)
        },
    decreases s.len(),
{
    let p = (|x: LinkV| x.name == n);
    if s.len() == 0 {
        reveal(Seq::filter);
        assert(seq![l] =~= Seq::<LinkV>::empty().push(l));
        Seq::<LinkV>::empty().lemma_filter_push(l, p);
        assert(Seq::<LinkV>::empty().filter(p) =~= Seq::<LinkV>::empty());
        if p(l) {
            assert(s.filter(p).push(l) =~= seq![l]);
        }
    } else if link_le(s.last(), l) {
        s.lemma_filter_push(l, p);
    } else {
        lemma_insert_sorted_filter(l, s.drop_last(), n);
        let inner = insert_sorted(l, s.drop_last());
        inner.lemma_filter_push(s.last(), p);
        s.drop_last().lemma_filter_push(s.last(), p);
        assert(s.drop_last().push(s.last()) =~= s);
        if l.name == n {
            crate::order::lemma_name_le_refl(l.name);
            assert(!p(s.last()));
        }
    }
}

/// Sorting is stable: the records bearing any one name come out in the order
/// they went in.
pub proof fn lemma_sort_stable(s: Seq<LinkV>, n: Seq<char>)
    ensures
        sort_by_name(s).filter(|x: LinkV| x.name == n) == s.filter(|x: LinkV| x.name == n),
    decreases s.len(),
{
    let p = (|x: LinkV| x.name == n);
    if s.len() == 0 {
        assert(sort_by_name(s) =~= s);
    } else {
        lemma_sort_stable(s.drop_last(), n);
        lemma_insert_sorted_filter(s.last(), sort_by_name(s.drop_last()), n);
        s.drop_last().lemma_filter_push(s.last(), p);
        assert(s.drop_last().push(s.last()) =~= s);
    }
}

} // verus!
