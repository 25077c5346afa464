//! Reagent-test lookups: name normalization and unique matching of a query
//! against the substances that carry reagent results.
use vstd::prelude::*;

use crate::index::NameIndex;
use crate::text::{lower_of, lowercase, starts_with};

verus! {

broadcast use vstd::seq_lib::group_to_multiset_ensures;

/// What `char::is_alphanumeric` returns for a character.
pub uninterp spec fn alnum(c: char) -> bool;

/// Relies on `char::is_alphanumeric`: whether the character is alphabetic or
/// numeric in Unicode; a function of the character alone.
#[verifier::external_body]
fn is_alphanumeric(c: char) -> (r: bool)
    ensures
        r == alnum(c),
{
    c.is_alphanumeric()
}

/// Relies on `String: FromIterator<char>`: the string of exactly these
/// characters, in order.
#[verifier::external_body]
fn string_of_chars(v: &Vec<char>) -> (r: String)
    ensures
        r@ == v@,
{
    v.iter().collect()
}

/// The normalized form of a chemical name: its alphanumeric characters only,
/// lowercased.
pub open spec fn normalized(s: Seq<char>) -> Seq<char> {
    lower_of(s.filter(|c: char| alnum(c)))
}

/// A substance name split into its chemical name and alternative names.
#[derive(Debug, Clone)]
pub struct ParsedSubstanceName {
    /// The primary chemical name (e.g. "4-HO-MET").
    pub chemical_name: String,
    /// Alternative names (e.g. "Metocin", "Methylcybin").
    pub alternative_names: Vec<String>,
    /// The name as published.
    pub raw_name: String,
}

/// A color a reagent can turn.
#[derive(Debug, Clone)]
pub struct ReagentColor {
    pub id: i32,
    pub name: String,
    pub hex: String,
    pub simple: bool,
    pub simple_color_id: Option<i32>,
}

/// A reagent.
#[derive(Debug, Clone)]
pub struct Reagent {
    pub id: i32,
    pub name: String,
    pub full_name: String,
    pub short_name: String,
    pub white_first_color: Option<bool>,
}

/// One reagent's reaction with a substance.
#[derive(Debug, Clone)]
pub struct ReagentTestResult {
    pub reagent: Reagent,
    pub start_colors: Vec<ReagentColor>,
    pub end_colors: Vec<ReagentColor>,
    pub is_positive: bool,
    pub description: String,
}

/// The reagent results of one substance.
#[derive(Debug, Clone)]
pub struct SubstanceReagents {
    pub substance_name: String,
    pub raw_name: Option<String>,
    pub results: Vec<ReagentTestResult>,
}

/// One raw result: start colors, end colors, positive, description.
#[derive(Debug, Clone)]
pub struct RawResult(pub Vec<i32>, pub Vec<i32>, pub bool, pub String);

/// The reagent data as published: colors, reagents, per substance per reagent
/// the results, and the substance names.
#[derive(Debug, Clone)]
pub struct RawReagentData {
    pub colors: Vec<ReagentColor>,
    pub reagents: Vec<Reagent>,
    pub results: Vec<Option<Vec<Option<Vec<RawResult>>>>>,
    pub substances: Vec<String>,
}

/// Reagent data indexed by substance name.
#[derive(Debug)]
pub struct ReagentData {
    /// Colors in the order given.
    colors: Vec<ReagentColor>,
    /// Reagents in the order given.
    reagents: Vec<Reagent>,
    /// Parsed substance names by index.
    substances: Vec<ParsedSubstanceName>,
    /// Results by substance index.
    results: Vec<Vec<ReagentTestResult>>,
    /// Lowercased chemical names and unique alternative names → index.
    name_to_index: NameIndex,
    /// Normalized chemical name → index.
    normalized_to_index: NameIndex,
    /// Lowercased alternative names that occur more than once.
    non_unique_alternatives: Vec<String>,
}

/// The normalized chemical names of the substances.
pub open spec fn normalized_names(subs: Seq<ParsedSubstanceName>) -> Seq<Seq<char>> {
    subs.map_values(|p: ParsedSubstanceName| normalized(p.chemical_name@))
}

/// Number of positions of `s` whose value satisfies `p`.
pub open spec fn count_matching(s: Seq<Seq<char>>, p: spec_fn(Seq<char>) -> bool) -> nat
    decreases s.len(),
{
    if s.len() == 0 {
        0
    } else {
        count_matching(s.drop_last(), p) + if p(s.last()) {
            1nat
        } else {
            0nat
        }
    }
}

impl ReagentData {
    pub closed spec fn entries(&self) -> Seq<ParsedSubstanceName> {
        self.substances@
    }

    pub closed spec fn reagent_list(&self) -> Seq<Reagent> {
        self.reagents@
    }

    pub closed spec fn color_list(&self) -> Seq<ReagentColor> {
        self.colors@
    }

    pub closed spec fn result_table(&self) -> Seq<Seq<(
        (i32, Seq<char>, Seq<char>, Seq<char>, Option<bool>),
        Seq<(i32, Seq<char>, Seq<char>, bool, Option<i32>)>,
        Seq<(i32, Seq<char>, Seq<char>, bool, Option<i32>)>,
        bool,
        Seq<char>,
    )>> {
        self.results@.map_values(|v: Vec<ReagentTestResult>| v@.map_values(|t: ReagentTestResult| result_view(t)))
    }

    pub closed spec fn names(&self) -> Map<Seq<char>, usize> {
        self.name_to_index@
    }

    pub closed spec fn normalized_index(&self) -> Map<Seq<char>, usize> {
        self.normalized_to_index@
    }

    pub closed spec fn repeated(&self) -> Seq<Seq<char>> {
        self.non_unique_alternatives.deep_view()
    }

    pub closed spec fn wf(&self) -> bool {
        &&& self.name_to_index.wf()
        &&& self.normalized_to_index.wf()
        &&& self.results@.len() == self.substances@.len()
        &&& forall|k: Seq<char>| #[trigger] self.name_to_index@.contains_key(k) ==> self.name_to_index@[k] < self.substances@.len()
        &&& forall|k: Seq<char>| #[trigger] self.normalized_to_index@.contains_key(k) ==> self.normalized_to_index@[k] < self.substances@.len()
        &&& forall|k: Seq<char>| #[trigger] self.normalized_to_index@.contains_key(k) ==> normalized(self.substances@[self.normalized_to_index@[k] as int].chemical_name@) == k
    }

    /// Normalize a chemical name for fuzzy matching: drop everything but
    /// alphanumeric characters, then lowercase.
    pub fn normalize_chemical_name(name: &str) -> (r: String)
        ensures
            r@ == normalized(name@),
    {
        let n = name.unicode_len();
        let mut kept: Vec<char> = Vec::new();
        let mut i: usize = 0;
        while i < n
            invariant
                n == name@.len(),
                i <= n,
                kept@ == name@.subrange(0, i as int).filter(|c: char| alnum(c)),
            decreases n - i,
        {
            let c = name.get_char(i);
            proof {
                let pre = name@.subrange(0, i + 1);
                assert(pre.drop_last() =~= name@.subrange(0, i as int));
                assert(pre.last() == c);
                reveal(Seq::filter);
            }
            if is_alphanumeric(c) {
                kept.push(c);
            }
            i = i + 1;
        }
        assert(name@.subrange(0, n as int) =~= name@);
        let joined = string_of_chars(&kept);
        lowercase(joined.as_str())
    }

    /// Number of substances.
    pub fn substance_count(&self) -> (r: usize)
        ensures
            r == self.entries().len(),
    {
        self.substances.len()
    }

    /// Whether the normalized query is a prefix of (or equal to) the normalized
    /// chemical name of more than one substance.
    pub fn is_ambiguous(&self, query: &str) -> (r: bool)
        ensures
            r == (count_matching(normalized_names(self.entries()), |k: Seq<char>| normalized(query@).is_prefix_of(k)) > 1),
    {
        let q = Self::normalize_chemical_name(query);
        let ghost p: spec_fn(Seq<char>) -> bool = |k: Seq<char>| normalized(query@).is_prefix_of(k);
        let ghost names = normalized_names(self.substances@);
        let mut count: usize = 0;
        let mut i: usize = 0;
        while i < self.substances.len()
            invariant
                i <= self.substances@.len(),
                names == normalized_names(self.substances@),
                p == (|k: Seq<char>| normalized(query@).is_prefix_of(k)),
                q@ == normalized(query@),
                count == count_matching(names.subrange(0, i as int), p),
                count <= i,
            decreases self.substances@.len() - i,
        {
            proof {
                assert(names.subrange(0, i + 1).drop_last() =~= names.subrange(0, i as int));
            }
            let norm = Self::normalize_chemical_name(self.substances[i].chemical_name.as_str());
            let hit = starts_with(norm.as_str(), q.as_str());
            proof {
                assert(names.subrange(0, i + 1).last() == names[i as int]);
                assert(names[i as int] == norm@);
                assert(p(names[i as int]) == hit);
            }
            if hit {
                count = count + 1;
            }
            i = i + 1;
        }
        proof {
            assert(names.subrange(0, self.substances@.len() as int) =~= names);
        }
        count > 1
    }
}

/// Shared holder of reagent data.
#[derive(Debug)]
pub struct ReagentDataHolder(pub ReagentData);

impl ReagentDataHolder {
    pub fn new(data: ReagentData) -> (r: Self)
        ensures
            r.0 == data,
    {
        ReagentDataHolder(data)
    }

    pub fn get(&self) -> (r: &ReagentData)
        ensures
            *r == self.0,
    {
        &self.0
    }
}

/// What `char::is_whitespace` returns for a character (Unicode White_Space).
pub uninterp spec fn white(c: char) -> bool;

/// Relies on `char::is_whitespace`: whether the character has the Unicode
/// White_Space property; a function of the character alone.
#[verifier::external_body]
fn is_whitespace(c: char) -> (r: bool)
    ensures
        r == white(c),
{
    c.is_whitespace()
}

/// `s` without leading whitespace.
pub open spec fn trim_start(s: Seq<char>) -> Seq<char>
    decreases s.len(),
{
    if s.len() > 0 && white(s[0]) {
        trim_start(s.drop_first())
    } else {
        s
    }
}

/// `s` without trailing whitespace.
pub open spec fn trim_end(s: Seq<char>) -> Seq<char>
    decreases s.len(),
{
    if s.len() > 0 && white(s.last()) {
        trim_end(s.drop_last())
    } else {
        s
    }
}

/// `s` without leading or trailing whitespace.
pub open spec fn trimmed(s: Seq<char>) -> Seq<char> {
    trim_end(trim_start(s))
}

/// The pieces of `s` between commas (one more than there are commas).
pub open spec fn comma_pieces(s: Seq<char>) -> Seq<Seq<char>>
    decreases s.len(),
{
    if s.len() == 0 {
        seq![Seq::empty()]
    } else {
        let p = comma_pieces(s.drop_last());
        if s.last() == ',' {
            p.push(Seq::empty())
        } else {
            p.update(p.len() - 1, p.last().push(s.last()))
        }
    }
}

/// The trimmed, non-empty pieces.
pub open spec fn alternatives(pieces: Seq<Seq<char>>) -> Seq<Seq<char>>
    decreases pieces.len(),
{
    if pieces.len() == 0 {
        Seq::empty()
    } else {
        let rest = alternatives(pieces.drop_last());
        if trimmed(pieces.last()).len() == 0 {
            rest
        } else {
            rest.push(trimmed(pieces.last()))
        }
    }
}

/// Whether `o` can open the parenthesised part that closes at `c`: a `(` after
/// the first character, at least one character inside, and no `)` inside.
pub open spec fn opens_at(s: Seq<char>, o: int, c: int) -> bool {
    1 <= o && o + 1 < c && c < s.len() && s[o] == '(' && forall|k: int| o < k < c ==> s[k] != ')'
}

/// The end of `s` once trailing whitespace is dropped.
pub open spec fn content_end(s: Seq<char>) -> int {
    trim_end(s).len() as int
}

/// The name split as "Chemical (alt, alt)": `Some((o, c))` where `c` is the
/// closing `)` (followed only by whitespace) and `o` the first position that can
/// open it; `None` where the name has no such form.
pub open spec fn paren_split(s: Seq<char>) -> Option<(int, int)> {
    let c = content_end(s) - 1;
    if c >= 0 && s[c] == ')' && exists|o: int| opens_at(s, o, c) {
        let o = choose|o: int| opens_at(s, o, c) && forall|p: int| 1 <= p < o ==> !opens_at(s, p, c);
        Some((o, c))
    } else {
        None
    }
}

fn trim_exec(v: &Vec<char>, from: usize, to: usize) -> (r: Vec<char>)
    requires
        from <= to <= v@.len(),
    ensures
        r@ == trimmed(v@.subrange(from as int, to as int)),
{
    let mut a = from;
    while a < to && is_whitespace(v[a])
        invariant
            from <= a <= to,
            to <= v@.len(),
            trim_start(v@.subrange(from as int, to as int)) == trim_start(v@.subrange(a as int, to as int)),
        decreases to - a,
    {
        proof {
            assert(v@.subrange(a as int, to as int).drop_first() =~= v@.subrange(a + 1, to as int));
        }
        a = a + 1;
    }
    let mut b = to;
    proof {
        assert(trim_start(v@.subrange(a as int, to as int)) == v@.subrange(a as int, to as int));
    }
    while b > a && is_whitespace(v[b - 1])
        invariant
            a <= b <= to,
            to <= v@.len(),
            trim_end(v@.subrange(a as int, to as int)) == trim_end(v@.subrange(a as int, b as int)),
        decreases b - a,
    {
        proof {
            assert(v@.subrange(a as int, b as int).drop_last() =~= v@.subrange(a as int, b - 1));
        }
        b = b - 1;
    }
    let mut out: Vec<char> = Vec::new();
    let mut i = a;
    while i < b
        invariant
            a <= i <= b,
            b <= v@.len(),
            out@ == v@.subrange(a as int, i as int),
        decreases b - i,
    {
        out.push(v[i]);
        proof {
            assert(v@.subrange(a as int, i + 1) =~= v@.subrange(a as int, i as int).push(v@[i as int]));
        }
        i = i + 1;
    }
    out
}

fn chars_of(s: &str) -> (r: Vec<char>)
    ensures
        r@ == s@,
{
    let n = s.unicode_len();
    let mut out: Vec<char> = Vec::new();
    let mut i: usize = 0;
    while i < n
        invariant
            n == s@.len(),
            i <= n,
            out@ == s@.subrange(0, i as int),
        decreases n - i,
    {
        out.push(s.get_char(i));
        proof {
            assert(s@.subrange(0, i + 1) =~= s@.subrange(0, i as int).push(s@[i as int]));
        }
        i = i + 1;
    }
    assert(out@ =~= s@);
    out
}

/// Whether `r` is `name` split as "Chemical (alt1, alt2)": the chemical name
/// and the alternative names (trimmed, empty ones dropped); a name of any
/// other form is its own chemical name, with no alternatives.
pub open spec fn parsed_from(name: Seq<char>, r: ParsedSubstanceName) -> bool {
    &&& r.raw_name@ == name
    &&& match paren_split(name) {
        Some((o, c)) => r.chemical_name@ == trimmed(name.subrange(0, o)) && r.alternative_names.deep_view()
            == alternatives(comma_pieces(name.subrange(o + 1, c))),
        None => r.chemical_name@ == name && r.alternative_names@.len() == 0,
    }
}

impl ReagentData {
    /// Split a substance name (see `parsed_from`).
    pub fn parse_substance_name(name: &str) -> (r: ParsedSubstanceName)
        ensures
            parsed_from(name@, r),
    {
        split_substance_name(name)
    }
}

#[verifier::rlimit(80)]
fn split_substance_name(name: &str) -> (r: ParsedSubstanceName)
    ensures
        r.raw_name@ == name@,
        match paren_split(name@) {
            Some((o, c)) => r.chemical_name@ == trimmed(name@.subrange(0, o)) && r.alternative_names.deep_view()
                == alternatives(comma_pieces(name@.subrange(o + 1, c))),
            None => r.chemical_name@ == name@ && r.alternative_names@.len() == 0,
        },
{
    let v = chars_of(name);
    let n = v.len();
    let mut end = n;
    assert(name@.subrange(0, n as int) =~= name@);
    while end > 0 && is_whitespace(v[end - 1])
        invariant
            end <= n,
            n == v@.len(),
            v@ == name@,
            trim_end(name@) == trim_end(name@.subrange(0, end as int)),
        decreases end,
    {
        proof {
            assert(name@.subrange(0, end as int).drop_last() =~= name@.subrange(0, end - 1));
        }
        end = end - 1;
    }
    proof {
        assert(trim_end(name@.subrange(0, end as int)) == name@.subrange(0, end as int));
    }
    let plain = ParsedSubstanceName {
        chemical_name: name.to_owned(),
        alternative_names: Vec::new(),
        raw_name: name.to_owned(),
    };
    if end == 0 || v[end - 1] != ')' {
        return plain;
    }
    let c = end - 1;
    proof {
        assert(content_end(name@) - 1 == c);
    }
    if c < 3 {
        proof {
            assert forall|p: int| !opens_at(name@, p, c as int) by {}
        }
        return plain;
    }
    // Positions after the last ')' before c can open; the first of them is the
    // first '(' at or after max(1, last ')' + 1) with room for one character.
    let mut lo: usize = 1;
    let mut k: usize = 0;
    while k < c
        invariant
            k <= c,
            c < n,
            n == v@.len(),
            v@ == name@,
            1 <= lo <= k + 1,
            k > 0 ==> lo <= k,
            forall|m: int| lo <= m < k ==> v@[m] != ')',
            lo > 1 ==> v@[lo - 1] == ')',
        decreases c - k,
    {
        if v[k] == ')' {
            lo = k + 1;
        }
        k = k + 1;
    }
    let mut o = lo;
    while o + 1 < c && v[o] != '('
        invariant
            lo <= o,
            o <= c,
            c < n,
            n == v@.len(),
            v@ == name@,
            forall|m: int| lo <= m < c ==> v@[m] != ')',
            lo > 1 ==> v@[lo - 1] == ')',
            1 <= lo,
            forall|m: int| lo <= m < o ==> v@[m] != '(',
        decreases c - o,
    {
        o = o + 1;
    }
    if !(o + 1 < c) {
        proof {
            assert forall|p: int| !opens_at(name@, p, c as int) by {
                if opens_at(name@, p, c as int) {
                    if p < lo {
                        assert(name@[lo - 1] == ')');
                    }
                }
            }
        }
        return plain;
    }
    proof {
        assert(opens_at(name@, o as int, c as int));
        assert forall|p: int| 1 <= p < o implies !opens_at(name@, p, c as int) by {
            if opens_at(name@, p, c as int) && p < lo {
                assert(name@[lo - 1] == ')');
            }
        }
        let chosen = choose|q: int| opens_at(name@, q, c as int) && forall|p: int| 1 <= p < q ==> !opens_at(name@, p, c as int);
        if chosen < o {
            assert(!opens_at(name@, chosen, c as int));
        } else if chosen > o {
            assert(!opens_at(name@, o as int, c as int));
        }
        assert(content_end(name@) - 1 == c);
    }
    let chemical = trim_exec(&v, 0, o);
    let mut pieces: Vec<Vec<char>> = Vec::new();
    pieces.push(Vec::new());
    let mut i = o + 1;
    proof {
        assert(name@.subrange(o + 1, o + 1) =~= Seq::<char>::empty());
        assert(pieces@.map_values(|p: Vec<char>| p@) =~= comma_pieces(Seq::empty()));
    }
    while i < c
        invariant
            o + 1 <= i <= c,
            c < n,
            n == v@.len(),
            v@ == name@,
            pieces@.len() >= 1,
            pieces@.map_values(|p: Vec<char>| p@) == comma_pieces(name@.subrange(o + 1, i as int)),
        decreases c - i,
    {
        let ghost before = pieces@.map_values(|p: Vec<char>| p@);
        proof {
            assert(name@.subrange(o + 1, i + 1).drop_last() =~= name@.subrange(o + 1, i as int));
        }
        if v[i] == ',' {
            pieces.push(Vec::new());
            proof {
                assert(pieces@.map_values(|p: Vec<char>| p@) =~= before.push(Seq::empty()));
            }
        } else {
            let last = pieces.len() - 1;
            pieces[last].push(v[i]);
            proof {
                assert(pieces@.map_values(|p: Vec<char>| p@) =~= before.update(last as int, before[last as int].push(v@[i as int])));
            }
        }
        i = i + 1;
    }
    let mut alts: Vec<String> = Vec::new();
    let mut j: usize = 0;
    let ghost all = pieces@.map_values(|p: Vec<char>| p@);
    while j < pieces.len()
        invariant
            j <= pieces@.len(),
            all == pieces@.map_values(|p: Vec<char>| p@),
            alts.deep_view() == alternatives(all.subrange(0, j as int)),
        decreases pieces@.len() - j,
    {
        proof {
            assert(all.subrange(0, j + 1).drop_last() =~= all.subrange(0, j as int));
            assert(pieces@[j as int]@ == all[j as int]);
            assert(pieces@[j as int]@.subrange(0, pieces@[j as int]@.len() as int) =~= all[j as int]);
        }
        let t = trim_exec(&pieces[j], 0, pieces[j].len());
        if t.len() > 0 {
            let ghost before = alts.deep_view();
            alts.push(string_of_chars(&t));
            proof {
                assert(alts.deep_view() =~= before.push(t@));
            }
        }
        j = j + 1;
    }
    proof {
        assert(all.subrange(0, all.len() as int) =~= all);
    }
    ParsedSubstanceName {
        chemical_name: string_of_chars(&chemical),
        alternative_names: alts,
        raw_name: name.to_owned(),
    }
}

/// Whether substance `p` has an alternative name that is not repeated
/// (lowercased) and whose normalized form starts with `qn`.
pub open spec fn alt_hit(p: ParsedSubstanceName, repeated: Seq<Seq<char>>, qn: Seq<char>) -> bool {
    exists|j: int|
        0 <= j < p.alternative_names@.len() && !repeated.contains(lower_of(#[trigger] p.alternative_names@[j]@))
            && qn.is_prefix_of(normalized(p.alternative_names@[j]@))
}

/// Number of substances with an alternative-name hit.
pub open spec fn alt_hit_count(subs: Seq<ParsedSubstanceName>, repeated: Seq<Seq<char>>, qn: Seq<char>) -> nat
    decreases subs.len(),
{
    if subs.len() == 0 {
        0
    } else {
        alt_hit_count(subs.drop_last(), repeated, qn) + if alt_hit(subs.last(), repeated, qn) {
            1nat
        } else {
            0nat
        }
    }
}

/// The unique match of a query, in order of preference: an exact registered
/// name (lowercased); the normalized chemical name, if only one substance has
/// it; the only substance whose normalized chemical name starts with the
/// normalized query; the only substance with an unrepeated alternative name
/// that starts with it. `None` when ambiguous or absent.
pub open spec fn unique_match(d: ReagentData, query: Seq<char>, r: Option<usize>) -> bool {
    let ql = lower_of(query);
    let qn = normalized(query);
    let norms = normalized_names(d.entries());
    if d.names().contains_key(ql) {
        r == Some(d.names()[ql])
    } else if d.normalized_index().contains_key(qn) {
        if count_matching(norms, |k: Seq<char>| k == qn) == 1 {
            r == Some(d.normalized_index()[qn])
        } else {
            r.is_none()
        }
    } else if count_matching(norms, |k: Seq<char>| qn.is_prefix_of(k)) == 1 {
        r.is_some() && r.unwrap() < norms.len() && qn.is_prefix_of(norms[r.unwrap() as int])
    } else if alt_hit_count(d.entries(), d.repeated(), qn) == 1 {
        r.is_some() && r.unwrap() < d.entries().len() && alt_hit(d.entries()[r.unwrap() as int], d.repeated(), qn)
    } else {
        r.is_none()
    }
}

fn contains_lowered(v: &Vec<String>, s: &String) -> (r: bool)
    ensures
        r == v.deep_view().contains(s@),
{
    let mut i: usize = 0;
    while i < v.len()
        invariant
            i <= v@.len(),
            forall|k: int| 0 <= k < i ==> v@[k]@ != s@,
        decreases v@.len() - i,
    {
        if v[i] == *s {
            assert(v.deep_view()[i as int] == s@);
            return true;
        }
        i = i + 1;
    }
    proof {
        if v.deep_view().contains(s@) {
            let k = choose|k: int| 0 <= k < v.deep_view().len() && v.deep_view()[k] == s@;
            assert(v@[k]@ == s@);
        }
    }
    false
}

impl ReagentData {
    /// Count of substances whose normalized chemical name satisfies: equal to
    /// `qn` (`prefix` false) or starts with it (`prefix` true); and the last
    /// such index.
    fn count_normalized(&self, qn: &String, prefix: bool) -> (r: (usize, usize))
        ensures
            prefix ==> r.0 == count_matching(normalized_names(self.entries()), |k: Seq<char>| qn@.is_prefix_of(k)),
            !prefix ==> r.0 == count_matching(normalized_names(self.entries()), |k: Seq<char>| k == qn@),
            r.0 >= 1 ==> r.1 < self.entries().len() && (if prefix {
                qn@.is_prefix_of(normalized_names(self.entries())[r.1 as int])
            } else {
                normalized_names(self.entries())[r.1 as int] == qn@
            }),
    {
        let ghost p = |k: Seq<char>| if prefix {
            qn@.is_prefix_of(k)
        } else {
            k == qn@
        };
        let ghost names = normalized_names(self.substances@);
        let mut count: usize = 0;
        let mut last: usize = 0;
        let mut i: usize = 0;
        while i < self.substances.len()
            invariant
                i <= self.substances@.len(),
                names == normalized_names(self.substances@),
                p == (|k: Seq<char>| if prefix { qn@.is_prefix_of(k) } else { k == qn@ }),
                count == count_matching(names.subrange(0, i as int), p),
                count <= i,
                count >= 1 ==> last < i && p(names[last as int]),
            decreases self.substances@.len() - i,
        {
            proof {
                assert(names.subrange(0, i + 1).drop_last() =~= names.subrange(0, i as int));
            }
            let norm = Self::normalize_chemical_name(self.substances[i].chemical_name.as_str());
            let hit = if prefix {
                starts_with(norm.as_str(), qn.as_str())
            } else {
                norm == *qn
            };
            proof {
                assert(names[i as int] == norm@);
                assert(p(names[i as int]) == hit);
            }
            if hit {
                count = count + 1;
                last = i;
            }
            i = i + 1;
        }
        proof {
            assert(names.subrange(0, self.substances@.len() as int) =~= names);
            if prefix {
                assert(p =~= (|k: Seq<char>| qn@.is_prefix_of(k)));
            } else {
                assert(p =~= (|k: Seq<char>| k == qn@));
            }
        }
        (count, last)
    }

    fn has_alt_hit(&self, i: usize, qn: &String) -> (r: bool)
        requires
            i < self.entries().len(),
        ensures
            r == alt_hit(self.entries()[i as int], self.repeated(), qn@),
    {
        let alts = &self.substances[i].alternative_names;
        let mut j: usize = 0;
        while j < alts.len()
            invariant
                j <= alts@.len(),
                alts@ == self.substances@[i as int].alternative_names@,
                forall|m: int| 0 <= m < j ==> !(!self.non_unique_alternatives.deep_view().contains(lower_of(#[trigger] alts@[m]@))
                    && qn@.is_prefix_of(normalized(alts@[m]@))),
            decreases alts@.len() - j,
        {
            let al = lowercase(alts[j].as_str());
            if !contains_lowered(&self.non_unique_alternatives, &al) {
                let an = Self::normalize_chemical_name(alts[j].as_str());
                if starts_with(an.as_str(), qn.as_str()) {
                    return true;
                }
            }
            j = j + 1;
        }
        false
    }

    /// The unique substance index for `query` (see `unique_match`).
    pub fn find_unique_substance_index(&self, query: &str) -> (r: Option<usize>)
        requires
            self.wf(),
        ensures
            unique_match(*self, query@, r),
    {
        let ql = lowercase(query);
        let qn = Self::normalize_chemical_name(query);
        match self.name_to_index.get(ql.as_str()) {
            Some(i) => return Some(i),
            None => {},
        }
        match self.normalized_to_index.get(qn.as_str()) {
            Some(i) => {
                let (count, _) = self.count_normalized(&qn, false);
                assert((|k: Seq<char>| k == qn@) =~= (|k: Seq<char>| k == normalized(query@)));
                return if count == 1 {
                    Some(i)
                } else {
                    None
                };
            },
            None => {},
        }
        let (count, last) = self.count_normalized(&qn, true);
        if count == 1 {
            return Some(last);
        }
        let mut hits: usize = 0;
        let mut found: usize = 0;
        let mut i: usize = 0;
        let ghost repeated = self.repeated();
        while i < self.substances.len()
            invariant
                i <= self.substances@.len(),
                repeated == self.repeated(),
                hits == alt_hit_count(self.substances@.subrange(0, i as int), repeated, qn@),
                hits <= i,
                hits >= 1 ==> found < i && alt_hit(self.substances@[found as int], repeated, qn@),
            decreases self.substances@.len() - i,
        {
            proof {
                assert(self.substances@.subrange(0, i + 1).drop_last() =~= self.substances@.subrange(0, i as int));
            }
            if self.has_alt_hit(i, &qn) {
                hits = hits + 1;
                found = i;
            }
            i = i + 1;
        }
        proof {
            assert(self.substances@.subrange(0, self.substances@.len() as int) =~= self.substances@);
        }
        if hits == 1 {
            Some(found)
        } else {
            None
        }
    }

    /// The reagent results of substance `idx`.
    pub fn get_results_by_index(&self, idx: usize) -> (r: Option<SubstanceReagents>)
        requires
            self.wf(),
        ensures
            r.is_some() == (idx < self.entries().len()),
            r.is_some() ==> reagents_of(*self, idx as int, r.unwrap()),
    {
        if idx >= self.substances.len() {
            return None;
        }
        let parsed = &self.substances[idx];
        Some(SubstanceReagents {
            substance_name: parsed.chemical_name.clone(),
            raw_name: Some(parsed.raw_name.clone()),
            results: copy_results(&self.results[idx]),
        })
    }

    /// The reagent results of the unique substance matching `query` (see
    /// `unique_match`); none when there is no unique match.
    pub fn lookup(&self, query: &str) -> (r: Option<SubstanceReagents>)
        requires
            self.wf(),
        ensures
            lookup_result(*self, query@, r),
    {
        let idx = self.find_unique_substance_index(query);
        match idx {
            Some(i) => {
                proof {
                    self.lemma_unique_match_in_range(query@, idx);
                }
                self.get_results_by_index(i)
            },
            None => None,
        }
    }

    proof fn lemma_unique_match_in_range(&self, q: Seq<char>, m: Option<usize>)
        requires
            self.wf(),
            unique_match(*self, q, m),
        ensures
            m.is_some() ==> m.unwrap() < self.entries().len(),
    {
    }

    /// Lookups for several queries, in order.
    pub fn lookup_many(&self, queries: &Vec<String>) -> (r: Vec<Option<SubstanceReagents>>)
        requires
            self.wf(),
        ensures
            r@.len() == queries@.len(),
            forall|i: int| 0 <= i < queries@.len() ==> lookup_result(*self, (#[trigger] queries@[i])@, r@[i]),
    {
        let mut out: Vec<Option<SubstanceReagents>> = Vec::new();
        let mut i: usize = 0;
        while i < queries.len()
            invariant
                self.wf(),
                i <= queries@.len(),
                out@.len() == i,
                forall|k: int| 0 <= k < i ==> lookup_result(*self, (#[trigger] queries@[k])@, out@[k]),
            decreases queries@.len() - i,
        {
            out.push(self.lookup(queries[i].as_str()));
            i = i + 1;
        }
        out
    }

    /// All reagents, in the order given.
    pub fn get_all_reagents(&self) -> (r: Vec<Reagent>)
        ensures
            r@.map_values(|x: Reagent| reagent_view(x)) == self.reagent_list().map_values(|x: Reagent| reagent_view(x)),
    {
        let mut out: Vec<Reagent> = Vec::new();
        let mut i: usize = 0;
        while i < self.reagents.len()
            invariant
                i <= self.reagents@.len(),
                out@.len() == i,
                forall|k: int| 0 <= k < i ==> reagent_view(#[trigger] out@[k]) == reagent_view(self.reagents@[k]),
            decreases self.reagents@.len() - i,
        {
            let x = &self.reagents[i];
            out.push(Reagent {
                id: x.id,
                name: x.name.clone(),
                full_name: x.full_name.clone(),
                short_name: x.short_name.clone(),
                white_first_color: x.white_first_color,
            });
            i = i + 1;
        }
        assert(out@.map_values(|x: Reagent| reagent_view(x)) =~= self.reagents@.map_values(|x: Reagent| reagent_view(x)));
        out
    }

    /// All colors, sorted by id: the color table's entries, each once.
    pub fn get_all_colors(&self) -> (r: Vec<ReagentColor>)
        ensures
            r@.map_values(|c: ReagentColor| color_view(c)).to_multiset()
                == self.color_list().map_values(|c: ReagentColor| color_view(c)).to_multiset(),
            forall|a: int, b: int| 0 <= a < b < r@.len() ==> r@[a].id <= r@[b].id,
    {
        let ghost cv = self.colors@.map_values(|c: ReagentColor| color_view(c));
        let mut out: Vec<ReagentColor> = Vec::new();
        let mut i: usize = 0;
        while i < self.colors.len()
            invariant
                i <= self.colors@.len(),
                cv == self.colors@.map_values(|c: ReagentColor| color_view(c)),
                out@.map_values(|c: ReagentColor| color_view(c)).to_multiset() == cv.subrange(0, i as int).to_multiset(),
                forall|a: int, b: int| 0 <= a < b < out@.len() ==> out@[a].id <= out@[b].id,
            decreases self.colors@.len() - i,
        {
            let c = copy_color(&self.colors[i]);
            let id = c.id;
            let mut pos: usize = 0;
            while pos < out.len() && out[pos].id <= id
                invariant
                    pos <= out@.len(),
                    forall|m: int| 0 <= m < pos ==> out@[m].id <= id,
                decreases out@.len() - pos,
            {
                pos = pos + 1;
            }
            let ghost before = out@;
            let ghost x = color_view(c);
            out.insert(pos, c);
            proof {
                let bv = before.map_values(|c: ReagentColor| color_view(c));
                let ov = out@.map_values(|c: ReagentColor| color_view(c));
                assert(ov =~= bv.subrange(0, pos as int) + seq![x] + bv.subrange(pos as int, bv.len() as int));
                assert(bv =~= bv.subrange(0, pos as int) + bv.subrange(pos as int, bv.len() as int));
                vstd::seq_lib::lemma_multiset_commutative(bv.subrange(0, pos as int) + seq![x], bv.subrange(pos as int, bv.len() as int));
                vstd::seq_lib::lemma_multiset_commutative(bv.subrange(0, pos as int), seq![x]);
                vstd::seq_lib::lemma_multiset_commutative(bv.subrange(0, pos as int), bv.subrange(pos as int, bv.len() as int));
                assert(cv.subrange(0, i + 1) =~= cv.subrange(0, i as int).push(x));
                assert(ov.to_multiset() =~= bv.to_multiset().insert(x));
                assert forall|a: int, b: int| 0 <= a < b < out@.len() implies out@[a].id <= out@[b].id by {
                    if b < pos {
                        assert(out@[a] == before[a] && out@[b] == before[b]);
                    } else if b == pos {
                        assert(out@[a] == before[a]);
                    } else if a == pos {
                        assert(out@[b] == before[b - 1]);
                    } else if a < pos {
                        assert(out@[a] == before[a] && out@[b] == before[b - 1]);
                        assert(before[a].id <= id);
                    } else {
                        assert(out@[a] == before[a - 1] && out@[b] == before[b - 1]);
                    }
                }
            }
            i = i + 1;
        }
        proof {
            assert(cv.subrange(0, self.colors@.len() as int) =~= cv);
        }
        out
    }
}

/// The values of a color.
pub open spec fn color_view(c: ReagentColor) -> (i32, Seq<char>, Seq<char>, bool, Option<i32>) {
    (c.id, c.name@, c.hex@, c.simple, c.simple_color_id)
}

/// The values of a reagent.
pub open spec fn reagent_view(r: Reagent) -> (i32, Seq<char>, Seq<char>, Seq<char>, Option<bool>) {
    (r.id, r.name@, r.full_name@, r.short_name@, r.white_first_color)
}

/// The values of a test result.
pub open spec fn result_view(t: ReagentTestResult) -> (
    (i32, Seq<char>, Seq<char>, Seq<char>, Option<bool>),
    Seq<(i32, Seq<char>, Seq<char>, bool, Option<i32>)>,
    Seq<(i32, Seq<char>, Seq<char>, bool, Option<i32>)>,
    bool,
    Seq<char>,
) {
    (
        reagent_view(t.reagent),
        t.start_colors@.map_values(|c: ReagentColor| color_view(c)),
        t.end_colors@.map_values(|c: ReagentColor| color_view(c)),
        t.is_positive,
        t.description@,
    )
}

/// Whether `r` holds substance `idx`'s chemical name, raw name and results.
pub open spec fn reagents_of(d: ReagentData, idx: int, r: SubstanceReagents) -> bool {
    &&& 0 <= idx < d.entries().len()
    &&& r.substance_name@ == d.entries()[idx].chemical_name@
    &&& opt_chars(r.raw_name) == Some(d.entries()[idx].raw_name@)
    &&& r.results@.map_values(|t: ReagentTestResult| result_view(t)) == d.result_table()[idx]
}

/// Whether `r` is what looking up `query` gives: the results of the unique
/// match, or none.
pub open spec fn lookup_result(d: ReagentData, query: Seq<char>, r: Option<SubstanceReagents>) -> bool {
    exists|m: Option<usize>| #[trigger] unique_match(d, query, m) && r.is_some() == m.is_some() && (r.is_some()
        ==> reagents_of(d, m.unwrap() as int, r.unwrap()))
}

fn copy_color(c: &ReagentColor) -> (r: ReagentColor)
    ensures
        color_view(r) == color_view(*c),
{
    ReagentColor {
        id: c.id,
        name: c.name.clone(),
        hex: c.hex.clone(),
        simple: c.simple,
        simple_color_id: c.simple_color_id,
    }
}

fn copy_colors(v: &Vec<ReagentColor>) -> (r: Vec<ReagentColor>)
    ensures
        r@.map_values(|c: ReagentColor| color_view(c)) == v@.map_values(|c: ReagentColor| color_view(c)),
{
    let mut out: Vec<ReagentColor> = Vec::new();
    let mut i: usize = 0;
    while i < v.len()
        invariant
            i <= v@.len(),
            out@.len() == i,
            forall|k: int| 0 <= k < i ==> color_view(#[trigger] out@[k]) == color_view(v@[k]),
        decreases v@.len() - i,
    {
        out.push(copy_color(&v[i]));
        i = i + 1;
    }
    assert(out@.map_values(|c: ReagentColor| color_view(c)) =~= v@.map_values(|c: ReagentColor| color_view(c)));
    out
}

fn copy_results(v: &Vec<ReagentTestResult>) -> (r: Vec<ReagentTestResult>)
    ensures
        r@.map_values(|t: ReagentTestResult| result_view(t)) == v@.map_values(|t: ReagentTestResult| result_view(t)),
{
    let mut out: Vec<ReagentTestResult> = Vec::new();
    let mut i: usize = 0;
    while i < v.len()
        invariant
            i <= v@.len(),
            out@.len() == i,
            forall|k: int| 0 <= k < i ==> result_view(#[trigger] out@[k]) == result_view(v@[k]),
        decreases v@.len() - i,
    {
        let t = &v[i];
        out.push(ReagentTestResult {
            reagent: Reagent {
                id: t.reagent.id,
                name: t.reagent.name.clone(),
                full_name: t.reagent.full_name.clone(),
                short_name: t.reagent.short_name.clone(),
                white_first_color: t.reagent.white_first_color,
            },
            start_colors: copy_colors(&t.start_colors),
            end_colors: copy_colors(&t.end_colors),
            is_positive: t.is_positive,
            description: t.description.clone(),
        });
        i = i + 1;
    }
    assert(out@.map_values(|t: ReagentTestResult| result_view(t)) =~= v@.map_values(|t: ReagentTestResult| result_view(t)));
    out
}

/// The characters of an optional string.
pub open spec fn opt_chars(o: Option<String>) -> Option<Seq<char>> {
    match o {
        Some(s) => Some(s@),
        None => None,
    }
}

/// The lowercased alternative names of all substances, in order.
pub open spec fn lowered_alts(subs: Seq<ParsedSubstanceName>) -> Seq<Seq<char>>
    decreases subs.len(),
{
    if subs.len() == 0 {
        Seq::empty()
    } else {
        lowered_alts(subs.drop_last()) + subs.last().alternative_names@.map_values(|a: String| lower_of(a@))
    }
}

/// Whether `k` occurs at two positions of `s`.
pub open spec fn occurs_twice(s: Seq<Seq<char>>, k: Seq<char>) -> bool {
    exists|a: int, b: int| 0 <= a < b < s.len() && s[a] == k && s[b] == k
}

fn lowered_alternatives(subs: &Vec<ParsedSubstanceName>) -> (r: Vec<String>)
    ensures
        r.deep_view() == lowered_alts(subs@),
{
    let mut out: Vec<String> = Vec::new();
    let mut i: usize = 0;
    while i < subs.len()
        invariant
            i <= subs@.len(),
            out.deep_view() == lowered_alts(subs@.subrange(0, i as int)),
        decreases subs@.len() - i,
    {
        proof {
            assert(subs@.subrange(0, i + 1).drop_last() =~= subs@.subrange(0, i as int));
        }
        let alts = &subs[i].alternative_names;
        let ghost base = out.deep_view();
        let mut j: usize = 0;
        while j < alts.len()
            invariant
                j <= alts@.len(),
                out.deep_view() == base + alts@.subrange(0, j as int).map_values(|a: String| lower_of(a@)),
            decreases alts@.len() - j,
        {
            let ghost before = out.deep_view();
            out.push(lowercase(alts[j].as_str()));
            proof {
                assert(alts@.subrange(0, j + 1).map_values(|a: String| lower_of(a@)) =~= alts@.subrange(0, j as int).map_values(|a: String| lower_of(a@)).push(lower_of(alts@[j as int]@)));
                assert(out.deep_view() =~= before.push(lower_of(alts@[j as int]@)));
            }
            j = j + 1;
        }
        proof {
            assert(alts@.subrange(0, alts@.len() as int) =~= alts@);
        }
        i = i + 1;
    }
    proof {
        assert(subs@.subrange(0, subs@.len() as int) =~= subs@);
    }
    out
}

/// The distinct values that occur at least twice in `all`.
fn repeated_values(all: &Vec<String>) -> (r: Vec<String>)
    ensures
        forall|k: Seq<char>| r.deep_view().contains(k) <==> occurs_twice(all.deep_view(), k),
{
    let ghost s = all.deep_view();
    let mut out: Vec<String> = Vec::new();
    let mut a: usize = 0;
    while a < all.len()
        invariant
            s == all.deep_view(),
            a <= all@.len(),
            forall|k: Seq<char>| out.deep_view().contains(k) ==> occurs_twice(s, k),
            forall|x: int, y: int| 0 <= x < y < all@.len() && x < a && s[x] == s[y] ==> out.deep_view().contains(s[x]),
        decreases all@.len() - a,
    {
        let mut b: usize = a + 1;
        let mut twice = false;
        while b < all.len()
            invariant
                s == all.deep_view(),
                a < b <= all@.len(),
                twice == exists|y: int| a < y < b && s[y] == s[a as int],
            decreases all@.len() - b,
        {
            assert(s[b as int] == all@[b as int]@ && s[a as int] == all@[a as int]@);
            if all[b] == all[a] {
                twice = true;
            }
            b = b + 1;
        }
        if twice {
            let ghost before = out.deep_view();
            out.push(all[a].clone());
            proof {
                assert(out.deep_view() =~= before.push(s[a as int]));
                assert forall|k: Seq<char>| out.deep_view().contains(k) implies occurs_twice(s, k) by {
                    if k == s[a as int] {
                        let y = choose|y: int| a < y < all@.len() && s[y] == s[a as int];
                        assert(s[a as int] == k && s[y] == k);
                    } else {
                        let m = choose|m: int| 0 <= m < out.deep_view().len() && out.deep_view()[m] == k;
                        assert(before[m] == k);
                    }
                }
                assert forall|x: int, y: int| 0 <= x < y < all@.len() && x < a + 1 && s[x] == s[y] implies out.deep_view().contains(s[x]) by {
                    if x < a {
                        let m = choose|m: int| 0 <= m < before.len() && before[m] == s[x];
                        assert(out.deep_view()[m] == s[x]);
                    } else {
                        assert(out.deep_view()[before.len() as int] == s[x]);
                    }
                }
            }
        } else {
            proof {
                assert forall|x: int, y: int| 0 <= x < y < all@.len() && x < a + 1 && s[x] == s[y] implies out.deep_view().contains(s[x]) by {
                    if x == a {
                        assert(a < y < all@.len() && s[y] == s[a as int]);
                    }
                }
            }
        }
        a = a + 1;
    }
    proof {
        assert forall|k: Seq<char>| occurs_twice(s, k) implies out.deep_view().contains(k) by {
            let (x, y) = choose|x: int, y: int| 0 <= x < y < s.len() && s[x] == k && s[y] == k;
            assert(s[x] == s[y]);
        }
    }
    out
}

impl ReagentData {
    /// Index the published data: parse every substance name, find the
    /// alternative names that occur more than once (lowercased), then register
    /// for each substance in order its lowercased chemical name, its normalized
    /// chemical name, and each of its unrepeated alternative names; attach each
    /// substance's results.
    pub fn build(raw: RawReagentData) -> (r: Self)
        ensures
            r.wf(),
            r.entries().len() == raw.substances@.len(),
            forall|i: int| 0 <= i < raw.substances@.len() ==> (#[trigger] r.entries()[i]).raw_name@ == raw.substances@[i]@,
            forall|k: Seq<char>| r.repeated().contains(k) <==> occurs_twice(lowered_alts(r.entries()), k),
            forall|i: int| 0 <= i < r.entries().len() ==> r.names().contains_key(lower_of(#[trigger] r.entries()[i].chemical_name@))
                && r.normalized_index().contains_key(normalized(r.entries()[i].chemical_name@)),
    {
        let mut substances: Vec<ParsedSubstanceName> = Vec::new();
        let mut i: usize = 0;
        while i < raw.substances.len()
            invariant
                i <= raw.substances@.len(),
                substances@.len() == i,
                forall|k: int| 0 <= k < i ==> (#[trigger] substances@[k]).raw_name@ == raw.substances@[k]@,
            decreases raw.substances@.len() - i,
        {
            substances.push(split_substance_name(raw.substances[i].as_str()));
            i = i + 1;
        }
        let all_alts = lowered_alternatives(&substances);
        let non_unique = repeated_values(&all_alts);
        let mut names = NameIndex::new();
        let mut normalized_index = NameIndex::new();
        let n = substances.len();
        let mut idx: usize = 0;
        while idx < n
            invariant
                n == substances@.len(),
                idx <= n,
                names.wf(),
                normalized_index.wf(),
                forall|k: Seq<char>| #[trigger] names@.contains_key(k) ==> names@[k] < n,
                forall|k: Seq<char>| #[trigger] normalized_index@.contains_key(k) ==> normalized_index@[k] < n,
                forall|k: Seq<char>| #[trigger] normalized_index@.contains_key(k) ==> normalized(substances@[normalized_index@[k] as int].chemical_name@) == k,
                forall|m: int| 0 <= m < idx ==> names@.contains_key(lower_of(#[trigger] substances@[m].chemical_name@))
                    && normalized_index@.contains_key(normalized(substances@[m].chemical_name@)),
            decreases n - idx,
        {
            let parsed = &substances[idx];
            let chem = lowercase(parsed.chemical_name.as_str());
            names.insert(chem, idx);
            let norm = Self::normalize_chemical_name(parsed.chemical_name.as_str());
            normalized_index.insert(norm, idx);
            let alts = &parsed.alternative_names;
            let mut j: usize = 0;
            while j < alts.len()
                invariant
                    n == substances@.len(),
                    idx < n,
                    j <= alts@.len(),
                    names.wf(),
                    forall|k: Seq<char>| #[trigger] names@.contains_key(k) ==> names@[k] < n,
                    forall|m: int| 0 <= m <= idx ==> names@.contains_key(lower_of(#[trigger] substances@[m].chemical_name@)),
                decreases alts@.len() - j,
            {
                let al = lowercase(alts[j].as_str());
                if !contains_lowered(&non_unique, &al) {
                    names.insert(al, idx);
                }
                j = j + 1;
            }
            idx = idx + 1;
        }
        let mut results: Vec<Vec<ReagentTestResult>> = Vec::new();
        let mut s: usize = 0;
        while s < n
            invariant
                s <= n,
                results@.len() == s,
            decreases n - s,
        {
            let mut list: Vec<ReagentTestResult> = Vec::new();
            if s < raw.results.len() {
                match &raw.results[s] {
                    Some(per_reagent) => {
                        let mut ri: usize = 0;
                        while ri < per_reagent.len()
                            invariant
                                ri <= per_reagent@.len(),
                            decreases per_reagent@.len() - ri,
                        {
                            match &per_reagent[ri] {
                                Some(entries) => {
                                    if ri < raw.reagents.len() {
                                        let reagent = &raw.reagents[ri];
                                        let mut e: usize = 0;
                                        while e < entries.len()
                                            invariant
                                                e <= entries@.len(),
                                            decreases entries@.len() - e,
                                        {
                                            let entry = &entries[e];
                                            list.push(ReagentTestResult {
                                                reagent: reagent.clone(),
                                                start_colors: colors_by_id(&raw.colors, &entry.0),
                                                end_colors: colors_by_id(&raw.colors, &entry.1),
                                                is_positive: entry.2,
                                                description: entry.3.clone(),
                                            });
                                            e = e + 1;
                                        }
                                    }
                                },
                                None => {},
                            }
                            ri = ri + 1;
                        }
                    },
                    None => {},
                }
            }
            results.push(list);
            s = s + 1;
        }
        ReagentData {
            colors: raw.colors,
            reagents: raw.reagents,
            substances,
            results,
            name_to_index: names,
            normalized_to_index: normalized_index,
            non_unique_alternatives: non_unique,
        }
    }
}

/// The colors with the given ids, in the order of `ids`; unknown ids are
/// skipped (the last color with an id wins).
fn colors_by_id(colors: &Vec<ReagentColor>, ids: &Vec<i32>) -> (r: Vec<ReagentColor>)
    ensures
        r@.len() <= ids@.len(),
{
    let mut out: Vec<ReagentColor> = Vec::new();
    let mut i: usize = 0;
    while i < ids.len()
        invariant
            i <= ids@.len(),
            out@.len() <= i,
        decreases ids@.len() - i,
    {
        let mut found: Option<usize> = None;
        let mut c: usize = 0;
        while c < colors.len()
            invariant
                i < ids@.len(),
                c <= colors@.len(),
                found.is_some() ==> found.unwrap() < colors@.len(),
            decreases colors@.len() - c,
        {
            if colors[c].id == ids[i] {
                found = Some(c);
            }
            c = c + 1;
        }
        match found {
            Some(k) => out.push(colors[k].clone()),
            None => {},
        }
        i = i + 1;
    }
    out
}

} // verus!
