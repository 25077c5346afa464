//! The snapshot: every record plus its lookup indexes, rebuilt as a pure
//! function of the records and the curated alias table.
use vstd::prelude::*;

use crate::index::{postings, NameIndex, PostingIndex};
use crate::clock::now_ms;
use crate::index::lemma_value_at;
use vstd::string::StringExecFns;
use crate::text::{url_encode, url_encoded, contains_char, ends_with, lemma_lex_total, lemma_lex_trans, lex_le, lex_less_eq, lower_of, lowercase, starts_with};

verus! {

/// Chemical and psychoactive classes of a record.
#[derive(Debug, Clone, Default)]
pub struct SubstanceClass {
    pub chemical: Option<Vec<String>>,
    pub psychoactive: Option<Vec<String>>,
}

/// A record of the catalog: what the indexes read, plus an opaque payload.
#[derive(Debug, Clone, Default)]
pub struct Substance {
    /// Canonical name (case-sensitive; unset for a malformed record).
    pub name: Option<String>,
    /// Link to the record's page.
    pub url: Option<String>,
    /// Classification tags.
    pub class: Option<SubstanceClass>,
    /// Common names, indexed as aliases.
    pub common_names: Option<Vec<String>>,
    /// Systematic name, indexed as an alias of lowest priority.
    pub systematic_name: Option<String>,
    /// Effect tags.
    pub effects: Option<Vec<String>>,
    /// Brief summary text.
    pub summary: Option<String>,
    /// The rest of the record, serialized; the core never reads it.
    pub payload: Vec<u8>,
}

/// Metadata about a snapshot.
#[derive(Debug, Clone, Copy)]
pub struct SnapshotMeta {
    /// When the snapshot was built, in milliseconds.
    pub created_at_ms: u64,
    /// Number of records.
    pub substance_count: usize,
    /// How long the build took, in milliseconds.
    pub build_duration_ms: u64,
    /// Number of distinct effect tags.
    pub effect_count: usize,
    /// Number of aliases indexed.
    pub alias_count: usize,
}

/// Curated aliases: canonical record name → alternative names.
#[derive(Debug, Clone, Default)]
pub struct SubstanceAliases {
    pub aliases: Vec<(String, Vec<String>)>,
}

/// The strings of an optional list (none: empty).
pub open spec fn opt_list(o: Option<Vec<String>>) -> Seq<String> {
    match o {
        Some(v) => v@,
        None => Seq::empty(),
    }
}

/// Phase 1: lowercased canonical name → position (a later record wins a tie).
pub open spec fn name_phase(subs: Seq<Substance>) -> Map<Seq<char>, usize>
    decreases subs.len(),
{
    if subs.len() == 0 {
        Map::empty()
    } else {
        let m = name_phase(subs.drop_last());
        match subs.last().name {
            Some(n) => m.insert(lower_of(n@), (subs.len() - 1) as usize),
            None => m,
        }
    }
}

/// Phase 2, one target: each alias that is not a canonical name points at `idx`,
/// overwriting any earlier alias entry.
pub open spec fn curated_list(
    names: Map<Seq<char>, usize>,
    idx: usize,
    aliases: Seq<String>,
    a: Map<Seq<char>, usize>,
) -> Map<Seq<char>, usize>
    decreases aliases.len(),
{
    if aliases.len() == 0 {
        a
    } else {
        let a1 = curated_list(names, idx, aliases.drop_last(), a);
        let k = lower_of(aliases.last()@);
        if names.contains_key(k) {
            a1
        } else {
            a1.insert(k, idx)
        }
    }
}

/// Phase 2: the curated table, in order; a target that is no canonical name is
/// skipped.
pub open spec fn curated_phase(names: Map<Seq<char>, usize>, table: Seq<(String, Vec<String>)>) -> Map<
    Seq<char>,
    usize,
>
    decreases table.len(),
{
    if table.len() == 0 {
        Map::empty()
    } else {
        let a = curated_phase(names, table.drop_last());
        let t = lower_of(table.last().0@);
        if names.contains_key(t) {
            curated_list(names, names[t], table.last().1@, a)
        } else {
            a
        }
    }
}

/// `a` with `k ↦ i` where `k` is neither a canonical name nor an alias yet.
pub open spec fn insert_if_free(
    names: Map<Seq<char>, usize>,
    a: Map<Seq<char>, usize>,
    k: Seq<char>,
    i: usize,
) -> Map<Seq<char>, usize> {
    if !a.contains_key(k) && !names.contains_key(k) {
        a.insert(k, i)
    } else {
        a
    }
}

/// Phase 3, one record: its common names where free.
pub open spec fn common_list(
    names: Map<Seq<char>, usize>,
    i: usize,
    list: Seq<String>,
    a: Map<Seq<char>, usize>,
) -> Map<Seq<char>, usize>
    decreases list.len(),
{
    if list.len() == 0 {
        a
    } else {
        insert_if_free(names, common_list(names, i, list.drop_last(), a), lower_of(list.last()@), i)
    }
}

/// Phase 3 of the alias index: for each named record in order, its common
/// names, each only where free.
pub open spec fn common_phase(names: Map<Seq<char>, usize>, subs: Seq<Substance>, a: Map<Seq<char>, usize>) -> Map<
    Seq<char>,
    usize,
>
    decreases subs.len(),
{
    if subs.len() == 0 {
        a
    } else {
        let a1 = common_phase(names, subs.drop_last(), a);
        let s = subs.last();
        if s.name.is_none() {
            a1
        } else {
            common_list(names, (subs.len() - 1) as usize, opt_list(s.common_names), a1)
        }
    }
}

/// Phase 4 of the alias index: for each named record in order, its systematic
/// name, only where free (after every common name).
pub open spec fn systematic_phase(names: Map<Seq<char>, usize>, subs: Seq<Substance>, a: Map<Seq<char>, usize>) -> Map<
    Seq<char>,
    usize,
>
    decreases subs.len(),
{
    if subs.len() == 0 {
        a
    } else {
        let a1 = systematic_phase(names, subs.drop_last(), a);
        let s = subs.last();
        match (s.name, s.systematic_name) {
            (Some(_), Some(sn)) => insert_if_free(names, a1, lower_of(sn@), (subs.len() - 1) as usize),
            _ => a1,
        }
    }
}

/// The alias index of `subs` under the curated `table`.
pub open spec fn alias_phase(subs: Seq<Substance>, table: Seq<(String, Vec<String>)>) -> Map<Seq<char>, usize> {
    let names = name_phase(subs);
    systematic_phase(names, subs, common_phase(names, subs, curated_phase(names, table)))
}

/// Append `i` to the posting list of each lowercased key of `keys`.
pub open spec fn post_list(m: Map<Seq<char>, Seq<usize>>, keys: Seq<String>, i: usize) -> Map<
    Seq<char>,
    Seq<usize>,
>
    decreases keys.len(),
{
    if keys.len() == 0 {
        m
    } else {
        let m1 = post_list(m, keys.drop_last(), i);
        let k = lower_of(keys.last()@);
        m1.insert(k, postings(m1, k).push(i))
    }
}

/// Which tag family of a record an inverted index covers.
#[derive(Debug, Clone, Copy, PartialEq, Eq, Structural)]
pub enum TagFamily {
    Chemical,
    Psychoactive,
    Effect,
}

/// The tags of `s` in a family.
pub open spec fn tags_of(s: Substance, f: TagFamily) -> Seq<String> {
    match f {
        TagFamily::Chemical => match s.class {
            Some(c) => opt_list(c.chemical),
            None => Seq::empty(),
        },
        TagFamily::Psychoactive => match s.class {
            Some(c) => opt_list(c.psychoactive),
            None => Seq::empty(),
        },
        TagFamily::Effect => opt_list(s.effects),
    }
}

/// Inverted index of a tag family: lowercased tag → positions in record order.
pub open spec fn tag_phase(subs: Seq<Substance>, f: TagFamily) -> Map<Seq<char>, Seq<usize>>
    decreases subs.len(),
{
    if subs.len() == 0 {
        Map::empty()
    } else {
        post_list(tag_phase(subs.drop_last(), f), tags_of(subs.last(), f), (subs.len() - 1) as usize)
    }
}

/// Every position in `m` is below `n`.
pub open spec fn positions_below(m: Map<Seq<char>, usize>, n: nat) -> bool {
    forall|k: Seq<char>| #[trigger] m.contains_key(k) ==> m[k] < n
}

/// Every position of every posting list in `m` is below `n`.
pub open spec fn postings_below(m: Map<Seq<char>, Seq<usize>>, n: nat) -> bool {
    forall|k: Seq<char>, j: int| #[trigger] m.contains_key(k) && 0 <= j < m[k].len() ==> #[trigger] m[k][j] < n
}

/// Complete snapshot of all records with indexes.
#[derive(Debug, Clone)]
pub struct SubstanceSnapshot {
    /// All records.
    pub substances: Vec<Substance>,
    by_name: NameIndex,
    by_alias: NameIndex,
    by_chemical_class: PostingIndex,
    by_psychoactive_class: PostingIndex,
    by_effect: PostingIndex,
    /// Curated alias data (kept for rebuilding indexes).
    pub alias_data: SubstanceAliases,
    /// Snapshot metadata.
    pub meta: SnapshotMeta,
}

impl SubstanceSnapshot {
    pub closed spec fn name_index(&self) -> Map<Seq<char>, usize> {
        self.by_name@
    }

    pub closed spec fn alias_index(&self) -> Map<Seq<char>, usize> {
        self.by_alias@
    }

    pub closed spec fn tag_index(&self, f: TagFamily) -> Map<Seq<char>, Seq<usize>> {
        match f {
            TagFamily::Chemical => self.by_chemical_class@,
            TagFamily::Psychoactive => self.by_psychoactive_class@,
            TagFamily::Effect => self.by_effect@,
        }
    }

    /// The indexes are those that the rebuild rules give for the records and
    /// the curated table, and every position in them names a record.
    pub closed spec fn wf(&self) -> bool {
        &&& self.by_name.wf()
        &&& self.by_alias.wf()
        &&& self.by_chemical_class.wf()
        &&& self.by_psychoactive_class.wf()
        &&& self.by_effect.wf()
        &&& self.by_name@ == name_phase(self.substances@)
        &&& self.by_alias@ == alias_phase(self.substances@, self.alias_data.aliases@)
        &&& self.by_chemical_class@ == tag_phase(self.substances@, TagFamily::Chemical)
        &&& self.by_psychoactive_class@ == tag_phase(self.substances@, TagFamily::Psychoactive)
        &&& self.by_effect@ == tag_phase(self.substances@, TagFamily::Effect)
        &&& positions_below(self.by_name@, self.substances@.len())
        &&& positions_below(self.by_alias@, self.substances@.len())
        &&& postings_below(self.by_chemical_class@, self.substances@.len())
        &&& postings_below(self.by_psychoactive_class@, self.substances@.len())
        &&& postings_below(self.by_effect@, self.substances@.len())
    }
}

fn build_name_index(subs: &Vec<Substance>) -> (r: NameIndex)
    ensures
        r.wf(),
        r@ == name_phase(subs@),
        positions_below(r@, subs@.len()),
{
    let mut m = NameIndex::new();
    let mut i: usize = 0;
    while i < subs.len()
        invariant
            i <= subs@.len(),
            m.wf(),
            m@ == name_phase(subs@.subrange(0, i as int)),
            positions_below(m@, i as nat),
        decreases subs@.len() - i,
    {
        proof {
            assert(subs@.subrange(0, i + 1).drop_last() =~= subs@.subrange(0, i as int));
        }
        match &subs[i].name {
            Some(n) => {
                let k = lowercase(n.as_str());
                m.insert(k, i);
            },
            None => {},
        }
        i = i + 1;
    }
    proof {
        assert(subs@.subrange(0, subs@.len() as int) =~= subs@);
    }
    m
}

fn add_curated_list(
    names: &NameIndex,
    idx: usize,
    aliases: &Vec<String>,
    a: &mut NameIndex,
    Ghost(n): Ghost<nat>,
)
    requires
        names.wf(),
        old(a).wf(),
        idx < n,
        positions_below(old(a)@, n),
    ensures
        final(a).wf(),
        final(a)@ == curated_list(names@, idx, aliases@, old(a)@),
        positions_below(final(a)@, n),
{
    let mut j: usize = 0;
    while j < aliases.len()
        invariant
            j <= aliases@.len(),
            names.wf(),
            a.wf(),
            idx < n,
            a@ == curated_list(names@, idx, aliases@.subrange(0, j as int), old(a)@),
            positions_below(a@, n),
        decreases aliases@.len() - j,
    {
        proof {
            assert(aliases@.subrange(0, j + 1).drop_last() =~= aliases@.subrange(0, j as int));
        }
        let k = lowercase(aliases[j].as_str());
        if !names.contains_key(k.as_str()) {
            a.insert(k, idx);
        }
        j = j + 1;
    }
    proof {
        assert(aliases@.subrange(0, aliases@.len() as int) =~= aliases@);
    }
}

fn add_if_free(names: &NameIndex, a: &mut NameIndex, k: String, i: usize, Ghost(n): Ghost<nat>)
    requires
        names.wf(),
        old(a).wf(),
        i < n,
        positions_below(old(a)@, n),
    ensures
        final(a).wf(),
        final(a)@ == insert_if_free(names@, old(a)@, k@, i),
        positions_below(final(a)@, n),
{
    if !a.contains_key(k.as_str()) && !names.contains_key(k.as_str()) {
        a.insert(k, i);
    }
}

fn build_alias_index(subs: &Vec<Substance>, names: &NameIndex, table: &Vec<(String, Vec<String>)>) -> (r: NameIndex)
    requires
        names.wf(),
        names@ == name_phase(subs@),
        positions_below(names@, subs@.len()),
    ensures
        r.wf(),
        r@ == alias_phase(subs@, table@),
        positions_below(r@, subs@.len()),
{
    let ghost n = subs@.len();
    let mut a = NameIndex::new();
    let mut e: usize = 0;
    while e < table.len()
        invariant
            e <= table@.len(),
            names.wf(),
            names@ == name_phase(subs@),
            positions_below(names@, n),
            n == subs@.len(),
            a.wf(),
            a@ == curated_phase(names@, table@.subrange(0, e as int)),
            positions_below(a@, n),
        decreases table@.len() - e,
    {
        proof {
            assert(table@.subrange(0, e + 1).drop_last() =~= table@.subrange(0, e as int));
        }
        let t = lowercase(table[e].0.as_str());
        match names.get(t.as_str()) {
            Some(idx) => {
                add_curated_list(names, idx, &table[e].1, &mut a, Ghost(n));
            },
            None => {},
        }
        e = e + 1;
    }
    proof {
        assert(table@.subrange(0, table@.len() as int) =~= table@);
    }
    let ghost curated = a@;
    let mut i: usize = 0;
    while i < subs.len()
        invariant
            i <= subs@.len(),
            names.wf(),
            positions_below(names@, n),
            n == subs@.len(),
            a.wf(),
            a@ == common_phase(names@, subs@.subrange(0, i as int), curated),
            positions_below(a@, n),
        decreases subs@.len() - i,
    {
        proof {
            assert(subs@.subrange(0, i + 1).drop_last() =~= subs@.subrange(0, i as int));
        }
        let s = &subs[i];
        if s.name.is_some() {
            let ghost a0 = a@;
            let list: &[String] = match &s.common_names {
                Some(l) => l.as_slice(),
                None => &[],
            };
            assert(list@ == opt_list(s.common_names));
            let mut j: usize = 0;
            while j < list.len()
                invariant
                    j <= list@.len(),
                    names.wf(),
                    a.wf(),
                    i < n,
                    a@ == common_list(names@, i, list@.subrange(0, j as int), a0),
                    positions_below(a@, n),
                decreases list@.len() - j,
            {
                proof {
                    assert(list@.subrange(0, j + 1).drop_last() =~= list@.subrange(0, j as int));
                }
                let k = lowercase(list[j].as_str());
                add_if_free(names, &mut a, k, i, Ghost(n));
                j = j + 1;
            }
            proof {
                assert(list@.subrange(0, list@.len() as int) =~= list@);
            }
        }
        i = i + 1;
    }
    proof {
        assert(subs@.subrange(0, subs@.len() as int) =~= subs@);
    }
    let ghost common = a@;
    let mut i: usize = 0;
    while i < subs.len()
        invariant
            i <= subs@.len(),
            names.wf(),
            positions_below(names@, n),
            n == subs@.len(),
            a.wf(),
            a@ == systematic_phase(names@, subs@.subrange(0, i as int), common),
            positions_below(a@, n),
        decreases subs@.len() - i,
    {
        proof {
            assert(subs@.subrange(0, i + 1).drop_last() =~= subs@.subrange(0, i as int));
        }
        let s = &subs[i];
        if s.name.is_some() {
            match &s.systematic_name {
                Some(sn) => {
                    let k = lowercase(sn.as_str());
                    add_if_free(names, &mut a, k, i, Ghost(n));
                },
                None => {},
            }
        }
        i = i + 1;
    }
    proof {
        assert(subs@.subrange(0, subs@.len() as int) =~= subs@);
    }
    a
}

fn tags_exec(s: &Substance, f: TagFamily) -> (r: &[String])
    ensures
        r@ == tags_of(*s, f),
{
    match f {
        TagFamily::Chemical => match &s.class {
            Some(c) => match &c.chemical {
                Some(v) => v.as_slice(),
                None => &[],
            },
            None => &[],
        },
        TagFamily::Psychoactive => match &s.class {
            Some(c) => match &c.psychoactive {
                Some(v) => v.as_slice(),
                None => &[],
            },
            None => &[],
        },
        TagFamily::Effect => match &s.effects {
            Some(v) => v.as_slice(),
            None => &[],
        },
    }
}

fn build_tag_index(subs: &Vec<Substance>, f: TagFamily) -> (r: PostingIndex)
    ensures
        r.wf(),
        r@ == tag_phase(subs@, f),
        postings_below(r@, subs@.len()),
{
    let mut m = PostingIndex::new();
    let mut i: usize = 0;
    while i < subs.len()
        invariant
            i <= subs@.len(),
            m.wf(),
            m@ == tag_phase(subs@.subrange(0, i as int), f),
            postings_below(m@, i as nat),
        decreases subs@.len() - i,
    {
        proof {
            assert(subs@.subrange(0, i + 1).drop_last() =~= subs@.subrange(0, i as int));
        }
        let tags = tags_exec(&subs[i], f);
        let ghost m0 = m@;
        let mut j: usize = 0;
        while j < tags.len()
            invariant
                j <= tags@.len(),
                i < subs@.len(),
                m.wf(),
                m@ == post_list(m0, tags@.subrange(0, j as int), i),
                postings_below(m@, (i + 1) as nat),
            decreases tags@.len() - j,
        {
            proof {
                assert(tags@.subrange(0, j + 1).drop_last() =~= tags@.subrange(0, j as int));
            }
            let k = lowercase(tags[j].as_str());
            let ghost before = m@;
            m.append(k, i);
            proof {
                assert forall|key: Seq<char>, q: int| #[trigger] m@.contains_key(key) && 0 <= q < m@[key].len()
                    implies #[trigger] m@[key][q] < i + 1 by {
                    if key != k@ {
                        assert(before.contains_key(key) && before[key] == m@[key]);
                    } else if q < m@[key].len() - 1 {
                        assert(before.contains_key(key));
                        assert(m@[key][q] == before[key][q]);
                    }
                }
            }
            j = j + 1;
        }
        proof {
            assert(tags@.subrange(0, tags@.len() as int) =~= tags@);
        }
        i = i + 1;
    }
    proof {
        assert(subs@.subrange(0, subs@.len() as int) =~= subs@);
    }
    m
}

/// The key by which search results are ordered: the lowercased canonical name
/// (empty for a record without one).
pub open spec fn name_key(s: Substance) -> Seq<char> {
    match s.name {
        Some(n) => lower_of(n@),
        None => Seq::empty(),
    }
}

/// Whether position `p` is reached by a key of `m` that starts with `q`.
pub open spec fn prefix_reaches(m: Map<Seq<char>, usize>, q: Seq<char>, p: usize) -> bool {
    exists|k: Seq<char>| #[trigger] m.contains_key(k) && q.is_prefix_of(k) && m[k] == p
}

/// Whether `ps` is the search result for the lowercased query `q`: nothing for
/// an empty query; the record of an exact canonical name alone; else the record
/// of an exact alias alone; else every record whose canonical name or alias
/// starts with `q`, each once, ordered by lowercased canonical name.
pub open spec fn search_result(
    names: Map<Seq<char>, usize>,
    aliases: Map<Seq<char>, usize>,
    recs: Seq<Substance>,
    q: Seq<char>,
    ps: Seq<usize>,
) -> bool {
    if q.len() == 0 {
        ps.len() == 0
    } else if names.contains_key(q) {
        ps == seq![names[q]]
    } else if aliases.contains_key(q) {
        ps == seq![aliases[q]]
    } else {
        &&& ps.no_duplicates()
        &&& forall|p: usize| ps.contains(p) <==> (prefix_reaches(names, q, p) || prefix_reaches(aliases, q, p))
        &&& forall|i: int, j: int| 0 <= i < j < ps.len() ==> lex_le(name_key(recs[ps[i] as int]), name_key(recs[ps[j] as int]))
    }
}

/// Sorted, distinct hits: `(sort key, position)`.
pub open spec fn hits_ok(hits: Seq<(String, usize)>, recs: Seq<Substance>) -> bool {
    &&& forall|i: int| 0 <= i < hits.len() ==> (#[trigger] hits[i]).1 < recs.len() && hits[i].0@ == name_key(recs[hits[i].1 as int])
    &&& forall|i: int, j: int| #![trigger hits[i], hits[j]] 0 <= i < j < hits.len() ==> lex_le(hits[i].0@, hits[j].0@)
    &&& forall|i: int, j: int| #![trigger hits[i], hits[j]] 0 <= i < hits.len() && 0 <= j < hits.len() && i != j ==> hits[i].1 != hits[j].1
}

pub open spec fn has_pos(hits: Seq<(String, usize)>, p: usize) -> bool {
    exists|i: int| 0 <= i < hits.len() && (#[trigger] hits[i]).1 == p
}

fn sort_key(s: &Substance) -> (r: String)
    ensures
        r@ == name_key(*s),
{
    match &s.name {
        Some(n) => lowercase(n.as_str()),
        None => String::new(),
    }
}

/// Add position `p` to the hits at its sorted place, unless it is there.
fn insert_hit(hits: &mut Vec<(String, usize)>, recs: &Vec<Substance>, p: usize)
    requires
        hits_ok(old(hits)@, recs@),
        p < recs@.len(),
    ensures
        hits_ok(final(hits)@, recs@),
        forall|x: usize| #[trigger] has_pos(final(hits)@, x) <==> (has_pos(old(hits)@, x) || x == p),
{
    let mut i: usize = 0;
    while i < hits.len()
        invariant
            i <= hits@.len(),
            hits@ == old(hits)@,
            hits_ok(hits@, recs@),
            forall|m: int| 0 <= m < i ==> (#[trigger] hits@[m]).1 != p,
        decreases hits@.len() - i,
    {
        if hits[i].1 == p {
            return;
        }
        i = i + 1;
    }
    let key = sort_key(&recs[p]);
    let mut pos: usize = 0;
    while pos < hits.len() && lex_less_eq(hits[pos].0.as_str(), key.as_str())
        invariant
            pos <= hits@.len(),
            forall|m: int| 0 <= m < pos ==> lex_le((#[trigger] hits@[m]).0@, key@),
        decreases hits@.len() - pos,
    {
        pos = pos + 1;
    }
    let ghost before = hits@;
    let ghost key_v = key@;
    proof {
        if pos < before.len() {
            lemma_lex_total(before[pos as int].0@, key@);
        }
    }
    hits.insert(pos, (key, p));
    proof {
        let h = hits@;
        assert(h =~= before.subrange(0, pos as int).push(h[pos as int]) + before.subrange(pos as int, before.len() as int));
        assert forall|a: int| 0 <= a < h.len() implies (#[trigger] h[a]).1 < recs@.len() && h[a].0@ == name_key(recs@[h[a].1 as int]) by {
            if a < pos {
                assert(h[a] == before[a]);
            } else if a > pos {
                assert(h[a] == before[a - 1]);
            }
        }
        assert forall|a: int, b: int| #![trigger h[a], h[b]] 0 <= a < b < h.len() implies lex_le(h[a].0@, h[b].0@) by {
            if b < pos {
                assert(h[a] == before[a] && h[b] == before[b]);
            } else if b == pos {
                assert(h[a] == before[a]);
            } else if a == pos {
                assert(h[b] == before[b - 1]);
                if b - 1 > pos {
                    assert(before[pos as int] == before[pos as int] && before[b - 1] == before[b - 1]);
                    lemma_lex_trans(key_v, before[pos as int].0@, before[b - 1].0@);
                }
            } else if a < pos {
                assert(h[a] == before[a] && h[b] == before[b - 1]);
                assert(before[a] == before[a] && before[pos as int] == before[pos as int]);
                lemma_lex_total(before[pos as int].0@, key_v);
                lemma_lex_trans(before[a].0@, key_v, before[pos as int].0@);
                if b - 1 > pos {
                    assert(before[b - 1] == before[b - 1]);
                    lemma_lex_trans(before[a].0@, before[pos as int].0@, before[b - 1].0@);
                }
            } else {
                assert(h[a] == before[a - 1] && h[b] == before[b - 1]);
            }
        }
        assert forall|a: int, b: int| #![trigger h[a], h[b]] 0 <= a < h.len() && 0 <= b < h.len() && a != b implies h[a].1 != h[b].1 by {
            let a0 = if a < pos { a } else { a - 1 };
            let b0 = if b < pos { b } else { b - 1 };
            if a != pos as int && b != pos as int {
                assert(h[a] == before[a0] && h[b] == before[b0]);
                assert(before[a0] == before[a0] && before[b0] == before[b0]);
            } else if a == pos as int {
                assert(h[b] == before[b0]);
            } else {
                assert(h[a] == before[a0]);
            }
        }
        assert forall|x: usize| #[trigger] has_pos(h, x) <==> (has_pos(before, x) || x == p) by {
            if has_pos(before, x) {
                let m = choose|m: int| 0 <= m < before.len() && (#[trigger] before[m]).1 == x;
                if m < pos {
                    assert(h[m] == before[m]);
                } else {
                    assert(h[m + 1] == before[m]);
                }
            }
            if x == p {
                assert(h[pos as int].1 == p);
            }
            if has_pos(h, x) {
                let m = choose|m: int| 0 <= m < h.len() && (#[trigger] h[m]).1 == x;
                if m < pos {
                    assert(h[m] == before[m]);
                } else if m > pos {
                    assert(h[m] == before[m - 1]);
                }
            }
        }
    }
}

/// Add to the hits every position that a key of `m` starting with `q` reaches.
fn collect_prefix_hits(m: &NameIndex, q: &str, hits: &mut Vec<(String, usize)>, recs: &Vec<Substance>)
    requires
        m.wf(),
        hits_ok(old(hits)@, recs@),
        crate::snapshot::positions_below(m@, recs@.len()),
    ensures
        hits_ok(final(hits)@, recs@),
        forall|x: usize| #[trigger] has_pos(final(hits)@, x) <==> (has_pos(old(hits)@, x) || prefix_reaches(m@, q@, x)),
{
    let n = m.len();
    let mut e: usize = 0;
    while e < n
        invariant
            n == m.entry_seq().len(),
            e <= n,
            m.wf(),
            crate::snapshot::positions_below(m@, recs@.len()),
            hits_ok(hits@, recs@),
            forall|x: usize| #[trigger] has_pos(hits@, x) <==> (has_pos(old(hits)@, x) || exists|i: int|
                0 <= i < e && q@.is_prefix_of(m.entry_seq()[i].0@) && #[trigger] m.entry_seq()[i].1 == x),
        decreases n - e,
    {
        let (k, p) = m.entry(e);
        if starts_with(k.as_str(), q) {
            insert_hit(hits, recs, p);
        }
        proof {
            assert forall|x: usize| #[trigger] has_pos(hits@, x) <==> (has_pos(old(hits)@, x) || exists|i: int|
                0 <= i < e + 1 && q@.is_prefix_of(m.entry_seq()[i].0@) && #[trigger] m.entry_seq()[i].1 == x) by {
                if exists|i: int| 0 <= i < e + 1 && q@.is_prefix_of(m.entry_seq()[i].0@) && #[trigger] m.entry_seq()[i].1 == x {
                    let i = choose|i: int| 0 <= i < e + 1 && q@.is_prefix_of(m.entry_seq()[i].0@) && #[trigger] m.entry_seq()[i].1 == x;
                    if i < e {
                        assert(exists|i: int| 0 <= i < e && q@.is_prefix_of(m.entry_seq()[i].0@) && #[trigger] m.entry_seq()[i].1 == x);
                    }
                }
            }
        }
        e = e + 1;
    }
    proof {
        assert forall|x: usize| (exists|i: int| 0 <= i < n && q@.is_prefix_of(m.entry_seq()[i].0@) && #[trigger] m.entry_seq()[i].1 == x)
            <==> prefix_reaches(m@, q@, x) by {
            if exists|i: int| 0 <= i < n && q@.is_prefix_of(m.entry_seq()[i].0@) && #[trigger] m.entry_seq()[i].1 == x {
                let i = choose|i: int| 0 <= i < n && q@.is_prefix_of(m.entry_seq()[i].0@) && #[trigger] m.entry_seq()[i].1 == x;
                m.lemma_entry_in_map(i);
                assert(m@.contains_key(m.entry_seq()[i].0@));
            }
            if prefix_reaches(m@, q@, x) {
                let k = choose|k: Seq<char>| #[trigger] m@.contains_key(k) && q@.is_prefix_of(k) && m@[k] == x;
                m.lemma_key_has_entry(k);
                let i = choose|i: int| 0 <= i < m.entry_seq().len() && #[trigger] m.entry_seq()[i].0@ == k;
                m.lemma_entry_in_map(i);
                assert(m.entry_seq()[i].1 == x);
            }
        }
    }
}

fn contains_pos(v: &Vec<usize>, p: usize) -> (r: bool)
    ensures
        r == v@.contains(p),
{
    let mut t: usize = 0;
    while t < v.len()
        invariant
            t <= v@.len(),
            forall|z: int| 0 <= z < t ==> v@[z] != p,
        decreases v@.len() - t,
    {
        if v[t] == p {
            return true;
        }
        t = t + 1;
    }
    false
}

/// `s` with each value kept at its first occurrence only.
pub open spec fn first_seen(s: Seq<usize>) -> Seq<usize>
    decreases s.len(),
{
    if s.len() == 0 {
        Seq::empty()
    } else {
        let d = first_seen(s.drop_last());
        if d.contains(s.last()) {
            d
        } else {
            d.push(s.last())
        }
    }
}

/// The posting lists of the lowercased `tags`, one after another.
pub open spec fn effect_stream(m: Map<Seq<char>, Seq<usize>>, tags: Seq<Seq<char>>) -> Seq<usize>
    decreases tags.len(),
{
    if tags.len() == 0 {
        Seq::empty()
    } else {
        effect_stream(m, tags.drop_last()) + postings(m, lower_of(tags.last()))
    }
}

/// The records at `ps`, in order.
pub open spec fn records_at<'a>(recs: Seq<Substance>, ps: Seq<usize>, r: Seq<&'a Substance>) -> bool {
    r.len() == ps.len() && forall|i: int| 0 <= i < ps.len() ==> ps[i] < recs.len() && *(#[trigger] r[i])
        == recs[ps[i] as int]
}

fn refs_at<'a>(recs: &'a Vec<Substance>, ps: &[usize]) -> (r: Vec<&'a Substance>)
    requires
        forall|i: int| 0 <= i < ps@.len() ==> (#[trigger] ps@[i]) < recs@.len(),
    ensures
        records_at(recs@, ps@, r@),
{
    let mut out: Vec<&'a Substance> = Vec::new();
    let mut i: usize = 0;
    while i < ps.len()
        invariant
            i <= ps@.len(),
            forall|j: int| 0 <= j < ps@.len() ==> (#[trigger] ps@[j]) < recs@.len(),
            out@.len() == i,
            forall|j: int| 0 <= j < i ==> *(#[trigger] out@[j]) == recs@[ps@[j] as int],
        decreases ps@.len() - i,
    {
        out.push(&recs[ps[i]]);
        i = i + 1;
    }
    out
}

impl SubstanceSnapshot {
    pub closed spec fn records(&self) -> Seq<Substance> {
        self.substances@
    }

    pub closed spec fn table(&self) -> Seq<(String, Vec<String>)> {
        self.alias_data.aliases@
    }

    pub closed spec fn metadata(&self) -> SnapshotMeta {
        self.meta
    }

    /// All records, in order.
    pub fn get_records(&self) -> (r: &Vec<Substance>)
        ensures
            r@ == self.records(),
    {
        &self.substances
    }

    /// Rebuild every index from the records and the curated table.
    pub fn rebuild_indexes(&mut self)
        ensures
            final(self).wf(),
            final(self).records() == old(self).records(),
            final(self).table() == old(self).table(),
            final(self).metadata() == old(self).metadata(),
    {
        let by_name = build_name_index(&self.substances);
        let by_alias = build_alias_index(&self.substances, &by_name, &self.alias_data.aliases);
        self.by_chemical_class = build_tag_index(&self.substances, TagFamily::Chemical);
        self.by_psychoactive_class = build_tag_index(&self.substances, TagFamily::Psychoactive);
        self.by_effect = build_tag_index(&self.substances, TagFamily::Effect);
        self.by_name = by_name;
        self.by_alias = by_alias;
    }

    /// Build a snapshot of `substances` with the curated `alias_data`.
    pub fn build_with_aliases(substances: Vec<Substance>, alias_data: SubstanceAliases) -> (r: Self)
        ensures
            r.wf(),
            r.records() == substances@,
            r.table() == alias_data.aliases@,
            r.metadata().substance_count == substances@.len(),
    {
        let start = now_ms();
        let count = substances.len();
        let mut snapshot = SubstanceSnapshot {
            substances,
            by_name: NameIndex::new(),
            by_alias: NameIndex::new(),
            by_chemical_class: PostingIndex::new(),
            by_psychoactive_class: PostingIndex::new(),
            by_effect: PostingIndex::new(),
            alias_data,
            meta: SnapshotMeta {
                created_at_ms: start,
                substance_count: count,
                build_duration_ms: 0,
                effect_count: 0,
                alias_count: 0,
            },
        };
        snapshot.rebuild_indexes();
        let end = now_ms();
        snapshot.meta.build_duration_ms = end.saturating_sub(start);
        snapshot.meta.effect_count = snapshot.by_effect.len();
        snapshot.meta.alias_count = snapshot.by_alias.len();
        snapshot
    }

    /// Build a snapshot of `substances` with no curated aliases.
    pub fn build(substances: Vec<Substance>) -> (r: Self)
        ensures
            r.wf(),
            r.records() == substances@,
            r.table().len() == 0,
            r.metadata().substance_count == substances@.len(),
    {
        Self::build_with_aliases(substances, SubstanceAliases::empty())
    }

    /// The record whose lowercased canonical name is the lowercased `name`.
    pub fn get_by_name(&self, name: &str) -> (r: Option<&Substance>)
        requires
            self.wf(),
        ensures
            r == if self.name_index().contains_key(lower_of(name@)) {
                Some(&self.records()[self.name_index()[lower_of(name@)] as int])
            } else {
                None
            },
    {
        let k = lowercase(name);
        match self.by_name.get(k.as_str()) {
            Some(i) => Some(&self.substances[i]),
            None => None,
        }
    }

    /// The record of the lowercased `query` as a canonical name, else as an alias.
    pub fn get_by_name_or_alias(&self, query: &str) -> (r: Option<&Substance>)
        requires
            self.wf(),
        ensures
            r == if self.name_index().contains_key(lower_of(query@)) {
                Some(&self.records()[self.name_index()[lower_of(query@)] as int])
            } else if self.alias_index().contains_key(lower_of(query@)) {
                Some(&self.records()[self.alias_index()[lower_of(query@)] as int])
            } else {
                None
            },
    {
        let k = lowercase(query);
        match self.by_name.get(k.as_str()) {
            Some(i) => Some(&self.substances[i]),
            None => match self.by_alias.get(k.as_str()) {
                Some(i) => Some(&self.substances[i]),
                None => None,
            },
        }
    }

    /// Positions of the search result for `query` (see `search_result`).
    pub fn search_positions(&self, query: &str) -> (r: Vec<usize>)
        requires
            self.wf(),
        ensures
            search_result(self.name_index(), self.alias_index(), self.records(), lower_of(query@), r@),
            forall|i: int| 0 <= i < r@.len() ==> (#[trigger] r@[i]) < self.records().len(),
    {
        let q = lowercase(query);
        if q.unicode_len() == 0 {
            return Vec::new();
        }
        match self.by_name.get(q.as_str()) {
            Some(i) => {
                let v = vec![i];
                assert(v@ =~= seq![i]);
                return v;
            },
            None => {},
        }
        match self.by_alias.get(q.as_str()) {
            Some(i) => {
                let v = vec![i];
                assert(v@ =~= seq![i]);
                return v;
            },
            None => {},
        }
        let mut hits: Vec<(String, usize)> = Vec::new();
        let ghost h0 = hits@;
        collect_prefix_hits(&self.by_name, q.as_str(), &mut hits, &self.substances);
        let ghost h1 = hits@;
        collect_prefix_hits(&self.by_alias, q.as_str(), &mut hits, &self.substances);
        let mut out: Vec<usize> = Vec::new();
        let mut i: usize = 0;
        while i < hits.len()
            invariant
                i <= hits@.len(),
                out@.len() == i,
                forall|j: int| 0 <= j < i ==> #[trigger] out@[j] == hits@[j].1,
            decreases hits@.len() - i,
        {
            out.push(hits[i].1);
            i = i + 1;
        }
        proof {
            let h = hits@;
            let recs = self.substances@;
            assert forall|a: int, b: int| 0 <= a < out@.len() && 0 <= b < out@.len() && a != b implies out@[a] != out@[b] by {
                assert(h[a] == h[a] && h[b] == h[b]);
            }
            assert forall|x: usize| out@.contains(x) <==> (prefix_reaches(self.name_index(), q@, x) || prefix_reaches(self.alias_index(), q@, x)) by {
                assert(has_pos(h, x) == (has_pos(h1, x) || prefix_reaches(self.by_alias@, q@, x)));
                assert(has_pos(h1, x) == (has_pos(h0, x) || prefix_reaches(self.by_name@, q@, x)));
                assert(!has_pos(h0, x));
                if out@.contains(x) {
                    let j = choose|j: int| 0 <= j < out@.len() && out@[j] == x;
                    assert(h[j].1 == x);
                    assert(has_pos(h, x));
                }
                if has_pos(h, x) {
                    let j = choose|j: int| 0 <= j < h.len() && (#[trigger] h[j]).1 == x;
                    assert(out@[j] == x);
                }
            }
            assert forall|a: int, b: int| 0 <= a < b < out@.len() implies lex_le(name_key(recs[out@[a] as int]), name_key(recs[out@[b] as int])) by {
                assert(h[a] == h[a] && h[b] == h[b]);
            }
            assert forall|j: int| 0 <= j < out@.len() implies (#[trigger] out@[j]) < recs.len() by {
                assert(h[j] == h[j]);
            }
            assert(q@ == lower_of(query@));
            assert(q@.len() != 0);
            assert(!self.name_index().contains_key(q@));
            assert(!self.alias_index().contains_key(q@));
            assert(out@.no_duplicates());
            assert(forall|x: usize| out@.contains(x) <==> (prefix_reaches(self.name_index(), q@, x) || prefix_reaches(self.alias_index(), q@, x)));
        }
        out
    }

    /// Search by exact canonical name, then exact alias, then prefix (see
    /// `search_result`); matching is case-insensitive.
    pub fn search(&self, query: &str) -> (r: Vec<&Substance>)
        requires
            self.wf(),
        ensures
            exists|ps: Seq<usize>|
                search_result(self.name_index(), self.alias_index(), self.records(), lower_of(query@), ps)
                    && records_at(self.records(), ps, r@),
    {
        let ps = self.search_positions(query);
        refs_at(&self.substances, ps.as_slice())
    }

    fn tag_lookup(&self, tag: &str, f: TagFamily) -> (r: Vec<&Substance>)
        requires
            self.wf(),
        ensures
            records_at(self.records(), postings(self.tag_index(f), lower_of(tag@)), r@),
    {
        let k = lowercase(tag);
        let ps = match f {
            TagFamily::Chemical => self.by_chemical_class.get(k.as_str()),
            TagFamily::Psychoactive => self.by_psychoactive_class.get(k.as_str()),
            TagFamily::Effect => self.by_effect.get(k.as_str()),
        };
        proof {
            let m = self.tag_index(f);
            assert forall|i: int| 0 <= i < ps@.len() implies (#[trigger] ps@[i]) < self.substances@.len() by {
                assert(m.contains_key(k@));
            }
        }
        refs_at(&self.substances, ps)
    }

    /// Records with chemical class `class` (case-insensitive), in record order.
    pub fn get_by_chemical_class(&self, class: &str) -> (r: Vec<&Substance>)
        requires
            self.wf(),
        ensures
            records_at(self.records(), postings(self.tag_index(TagFamily::Chemical), lower_of(class@)), r@),
    {
        self.tag_lookup(class, TagFamily::Chemical)
    }

    /// Records with psychoactive class `class` (case-insensitive), in record order.
    pub fn get_by_psychoactive_class(&self, class: &str) -> (r: Vec<&Substance>)
        requires
            self.wf(),
        ensures
            records_at(self.records(), postings(self.tag_index(TagFamily::Psychoactive), lower_of(class@)), r@),
    {
        self.tag_lookup(class, TagFamily::Psychoactive)
    }

    /// Records with effect tag `effect` (case-insensitive), in record order.
    pub fn get_by_effect(&self, effect: &str) -> (r: Vec<&Substance>)
        requires
            self.wf(),
        ensures
            records_at(self.records(), postings(self.tag_index(TagFamily::Effect), lower_of(effect@)), r@),
    {
        self.tag_lookup(effect, TagFamily::Effect)
    }

    /// Records with any of the effect tags (union), each once, in order of
    /// first appearance.
    pub fn get_by_effects(&self, effects: &Vec<String>) -> (r: Vec<&Substance>)
        requires
            self.wf(),
        ensures
            records_at(
                self.records(),
                first_seen(effect_stream(self.tag_index(TagFamily::Effect), effects.deep_view())),
                r@,
            ),
    {
        let ghost m = self.tag_index(TagFamily::Effect);
        let ghost ev = effects.deep_view();
        let mut ps: Vec<usize> = Vec::new();
        let mut e: usize = 0;
        while e < effects.len()
            invariant
                self.wf(),
                m == self.tag_index(TagFamily::Effect),
                ev == effects.deep_view(),
                e <= effects@.len(),
                ps@ == first_seen(effect_stream(m, ev.subrange(0, e as int))),
                forall|i: int| 0 <= i < ps@.len() ==> (#[trigger] ps@[i]) < self.substances@.len(),
            decreases effects@.len() - e,
        {
            let k = lowercase(effects[e].as_str());
            let list = self.by_effect.get(k.as_str());
            proof {
                assert(ev.subrange(0, e + 1).drop_last() =~= ev.subrange(0, e as int));
                assert(ev[e as int] == effects@[e as int]@);
            }
            let ghost base = effect_stream(m, ev.subrange(0, e as int));
            let mut j: usize = 0;
            while j < list.len()
                invariant
                    self.wf(),
                    m == self.tag_index(TagFamily::Effect),
                    list@ == postings(m, k@),
                    j <= list@.len(),
                    ps@ == first_seen(base + list@.subrange(0, j as int)),
                    forall|i: int| 0 <= i < ps@.len() ==> (#[trigger] ps@[i]) < self.substances@.len(),
                decreases list@.len() - j,
            {
                let p = list[j];
                proof {
                    assert(m.contains_key(k@));
                    assert((base + list@.subrange(0, j + 1)).drop_last() =~= base + list@.subrange(0, j as int));
                    assert((base + list@.subrange(0, j + 1)).last() == p);
                }
                if !contains_pos(&ps, p) {
                    ps.push(p);
                }
                j = j + 1;
            }
            proof {
                assert(list@.subrange(0, list@.len() as int) =~= list@);
                assert(effect_stream(m, ev.subrange(0, e + 1)) == base + postings(m, lower_of(ev[e as int])));
            }
            e = e + 1;
        }
        proof {
            assert(ev.subrange(0, effects@.len() as int) =~= ev);
        }
        refs_at(&self.substances, ps.as_slice())
    }

    /// Up to `limit` records starting at position `offset`, in record order.
    pub fn get_all(&self, limit: usize, offset: usize) -> (r: Vec<&Substance>)
        ensures
            r@.len() == if offset >= self.records().len() {
                0
            } else if self.records().len() - offset < limit {
                self.records().len() - offset
            } else {
                limit as int
            },
            forall|i: int| 0 <= i < r@.len() ==> *(#[trigger] r@[i]) == self.records()[offset + i],
    {
        let mut out: Vec<&Substance> = Vec::new();
        let n = self.substances.len();
        if offset >= n {
            return out;
        }
        let end = if n - offset < limit {
            n
        } else {
            offset + limit
        };
        let mut i: usize = offset;
        while i < end
            invariant
                offset <= i <= end,
                end <= n,
                n == self.substances@.len(),
                out@.len() == i - offset,
                forall|j: int| 0 <= j < out@.len() ==> *(#[trigger] out@[j]) == self.substances@[offset + j],
            decreases end - i,
        {
            out.push(&self.substances[i]);
            i = i + 1;
        }
        out
    }
}

impl SubstanceAliases {
    /// No curated aliases.
    pub fn empty() -> (r: Self)
        ensures
            r.aliases@.len() == 0,
    {
        SubstanceAliases { aliases: Vec::new() }
    }
}

/// The characters of an optional string.
pub open spec fn opt_view(o: Option<String>) -> Option<Seq<char>> {
    match o {
        Some(x) => Some(x@),
        None => None,
    }
}

/// The strings of an optional list, as character sequences.
pub open spec fn opt_list_view(o: Option<Vec<String>>) -> Option<Seq<Seq<char>>> {
    match o {
        Some(v) => Some(v.deep_view()),
        None => None,
    }
}

/// Two records hold the same values.
pub open spec fn same_substance(a: Substance, b: Substance) -> bool {
    &&& opt_view(a.name) == opt_view(b.name)
    &&& opt_view(a.url) == opt_view(b.url)
    &&& opt_view(a.summary) == opt_view(b.summary)
    &&& opt_view(a.systematic_name) == opt_view(b.systematic_name)
    &&& opt_list_view(a.common_names) == opt_list_view(b.common_names)
    &&& opt_list_view(a.effects) == opt_list_view(b.effects)
    &&& a.class.is_some() == b.class.is_some()
    &&& (a.class.is_some() ==> opt_list_view(a.class.unwrap().chemical) == opt_list_view(b.class.unwrap().chemical)
        && opt_list_view(a.class.unwrap().psychoactive) == opt_list_view(b.class.unwrap().psychoactive))
    &&& a.payload@ == b.payload@
}

fn copy_opt_string(o: &Option<String>) -> (r: Option<String>)
    ensures
        opt_view(r) == opt_view(*o),
{
    match o {
        Some(x) => Some(x.clone()),
        None => None,
    }
}

fn copy_strings(v: &Vec<String>) -> (r: Vec<String>)
    ensures
        r.deep_view() == v.deep_view(),
{
    let mut out: Vec<String> = Vec::new();
    let mut i: usize = 0;
    while i < v.len()
        invariant
            i <= v@.len(),
            out@.len() == i,
            forall|j: int| 0 <= j < i ==> #[trigger] out@[j]@ == v@[j]@,
        decreases v@.len() - i,
    {
        out.push(v[i].clone());
        i = i + 1;
    }
    assert(out.deep_view() =~= v.deep_view());
    out
}

fn copy_opt_list(o: &Option<Vec<String>>) -> (r: Option<Vec<String>>)
    ensures
        opt_list_view(r) == opt_list_view(*o),
{
    match o {
        Some(v) => Some(copy_strings(v)),
        None => None,
    }
}

fn copy_bytes(v: &Vec<u8>) -> (r: Vec<u8>)
    ensures
        r@ == v@,
{
    let mut out: Vec<u8> = Vec::new();
    let mut i: usize = 0;
    while i < v.len()
        invariant
            i <= v@.len(),
            out@ == v@.subrange(0, i as int),
        decreases v@.len() - i,
    {
        out.push(v[i]);
        i = i + 1;
    }
    assert(out@ =~= v@);
    out
}

/// A copy of `s` with the same values.
pub fn copy_substance(s: &Substance) -> (r: Substance)
    ensures
        same_substance(r, *s),
{
    let class = match &s.class {
        Some(c) => Some(SubstanceClass {
            chemical: copy_opt_list(&c.chemical),
            psychoactive: copy_opt_list(&c.psychoactive),
        }),
        None => None,
    };
    Substance {
        name: copy_opt_string(&s.name),
        url: copy_opt_string(&s.url),
        class,
        common_names: copy_opt_list(&s.common_names),
        systematic_name: copy_opt_string(&s.systematic_name),
        effects: copy_opt_list(&s.effects),
        summary: copy_opt_string(&s.summary),
        payload: copy_bytes(&s.payload),
    }
}

impl SubstanceSnapshot {
    /// Replace the record named `name` (case-insensitive) and rebuild; no
    /// change where there is none.
    pub fn update_substance(&mut self, name: &str, new_substance: Substance)
        requires
            old(self).wf(),
        ensures
            final(self).wf(),
            final(self).table() == old(self).table(),
            final(self).records() == if old(self).name_index().contains_key(lower_of(name@)) {
                old(self).records().update(old(self).name_index()[lower_of(name@)] as int, new_substance)
            } else {
                old(self).records()
            },
            final(self).metadata() == old(self).metadata(),
            !old(self).name_index().contains_key(lower_of(name@)) ==> *final(self) == *old(self),
    {
        let k = lowercase(name);
        match self.by_name.get(k.as_str()) {
            Some(i) => {
                self.substances.set(i, new_substance);
                self.rebuild_indexes();
            },
            None => {},
        }
    }

    /// Append a record and rebuild.
    pub fn add_substance(&mut self, substance: Substance)
        requires
            old(self).wf(),
        ensures
            final(self).wf(),
            final(self).table() == old(self).table(),
            final(self).records() == old(self).records().push(substance),
            final(self).metadata().substance_count == final(self).records().len(),
    {
        self.substances.push(substance);
        self.meta.substance_count = self.substances.len();
        self.rebuild_indexes();
    }

    /// Remove the record named `name` (case-insensitive) and rebuild; returns
    /// whether there was one.
    pub fn remove_substance(&mut self, name: &str) -> (r: bool)
        requires
            old(self).wf(),
        ensures
            final(self).wf(),
            final(self).table() == old(self).table(),
            r == old(self).name_index().contains_key(lower_of(name@)),
            final(self).records() == if r {
                old(self).records().remove(old(self).name_index()[lower_of(name@)] as int)
            } else {
                old(self).records()
            },
            r ==> final(self).metadata().substance_count == final(self).records().len(),
            !r ==> *final(self) == *old(self),
    {
        let k = lowercase(name);
        match self.by_name.get(k.as_str()) {
            Some(i) => {
                self.substances.remove(i);
                self.meta.substance_count = self.substances.len();
                self.rebuild_indexes();
                true
            },
            None => false,
        }
    }

    /// The effect tags of the record named `name` (empty where there is none).
    pub fn get_effects_for_substance(&self, name: &str) -> (r: Vec<String>)
        requires
            self.wf(),
        ensures
            r.deep_view() == if self.name_index().contains_key(lower_of(name@)) {
                tags_of(self.records()[self.name_index()[lower_of(name@)] as int], TagFamily::Effect).map_values(|x: String| x@)
            } else {
                Seq::empty()
            },
    {
        match self.get_by_name(name) {
            Some(s) => {
                let tags = tags_exec(s, TagFamily::Effect);
                let mut out: Vec<String> = Vec::new();
                let mut i: usize = 0;
                while i < tags.len()
                    invariant
                        i <= tags@.len(),
                        out@.len() == i,
                        forall|j: int| 0 <= j < i ==> #[trigger] out@[j]@ == tags@[j]@,
                    decreases tags@.len() - i,
                {
                    out.push(tags[i].clone());
                    i = i + 1;
                }
                assert(out.deep_view() =~= tags@.map_values(|x: String| x@));
                out
            },
            None => {
                let out: Vec<String> = Vec::new();
                assert(out.deep_view() =~= Seq::<Seq<char>>::empty());
                out
            },
        }
    }

    /// The summary of the record named `name`, if any.
    pub fn get_summary_for_substance(&self, name: &str) -> (r: Option<String>)
        requires
            self.wf(),
        ensures
            opt_view(r) == if self.name_index().contains_key(lower_of(name@)) {
                opt_view(self.records()[self.name_index()[lower_of(name@)] as int].summary)
            } else {
                None
            },
    {
        match self.get_by_name(name) {
            Some(s) => copy_opt_string(&s.summary),
            None => None,
        }
    }
}

/// An alias table as character sequences.
pub open spec fn table_view(t: Seq<(String, Vec<String>)>) -> Seq<(Seq<char>, Seq<Seq<char>>)> {
    t.map_values(|e: (String, Vec<String>)| (e.0@, e.1.deep_view()))
}

/// Redirect sources that are never taken as aliases: talk and file pages,
/// subpages, and botany / mycology disambiguations.
pub open spec fn reserved_source(s: Seq<char>) -> bool {
    "Talk:"@.is_prefix_of(s) || "File:"@.is_prefix_of(s) || "Project talk:"@.is_prefix_of(s) || s.contains('/')
        || "(Botany)"@.is_suffix_of(s) || "(botany)"@.is_suffix_of(s) || "(Mycology)"@.is_suffix_of(s)
        || "(mycology)"@.is_suffix_of(s)
}

/// Whether the curated table gives the lowercased alias `src` to a target
/// other than the lowercased `tgt`.
pub open spec fn claimed_elsewhere(orig: Seq<(Seq<char>, Seq<Seq<char>>)>, src: Seq<char>, tgt: Seq<char>) -> bool {
    exists|i: int, j: int|
        0 <= i < orig.len() && 0 <= j < orig[i].1.len() && lower_of(#[trigger] orig[i].1[j]) == src
            && lower_of(orig[i].0) != tgt
}

/// Whether `list` already holds `src` up to case.
pub open spec fn holds_alias(list: Seq<Seq<char>>, src: Seq<char>) -> bool {
    exists|j: int| 0 <= j < list.len() && lower_of(#[trigger] list[j]) == src
}

/// Whether redirect `src` to `tgt` becomes an alias in `list`.
pub open spec fn keeps_redirect(
    orig: Seq<(Seq<char>, Seq<Seq<char>>)>,
    list: Seq<Seq<char>>,
    tgt: Seq<char>,
    src: Seq<char>,
) -> bool {
    &&& !reserved_source(src)
    &&& lower_of(src) != lower_of(tgt)
    &&& !holds_alias(list, lower_of(src))
    &&& !claimed_elsewhere(orig, lower_of(src), lower_of(tgt))
}

/// `list` after the redirect `sources` of `tgt`, in order. Each source is
/// tested against `list` as it was before any of them was added, so two
/// sources that differ only in case are both added.
pub open spec fn merged_sources(
    orig: Seq<(Seq<char>, Seq<Seq<char>>)>,
    list: Seq<Seq<char>>,
    tgt: Seq<char>,
    sources: Seq<Seq<char>>,
) -> Seq<Seq<char>>
    decreases sources.len(),
{
    if sources.len() == 0 {
        list
    } else {
        let l1 = merged_sources(orig, list, tgt, sources.drop_last());
        if keeps_redirect(orig, list, tgt, sources.last()) {
            l1.push(sources.last())
        } else {
            l1
        }
    }
}

/// Whether `i` is the first entry of `tv` for target `t`.
pub open spec fn first_entry(tv: Seq<(Seq<char>, Seq<Seq<char>>)>, t: Seq<char>, i: int) -> bool {
    0 <= i < tv.len() && tv[i].0 == t && forall|k: int| 0 <= k < i ==> #[trigger] tv[k].0 != t
}

/// The table after merging the redirects of one target.
pub open spec fn merged_target(
    orig: Seq<(Seq<char>, Seq<Seq<char>>)>,
    tv: Seq<(Seq<char>, Seq<Seq<char>>)>,
    t: Seq<char>,
    sources: Seq<Seq<char>>,
) -> Seq<(Seq<char>, Seq<Seq<char>>)> {
    if exists|i: int| first_entry(tv, t, i) {
        let i = choose|i: int| first_entry(tv, t, i);
        tv.update(i, (t, merged_sources(orig, tv[i].1, t, sources)))
    } else {
        tv.push((t, merged_sources(orig, Seq::empty(), t, sources)))
    }
}

/// The table after merging every redirect entry, in order.
pub open spec fn merged_table(
    orig: Seq<(Seq<char>, Seq<Seq<char>>)>,
    tv: Seq<(Seq<char>, Seq<Seq<char>>)>,
    redirects: Seq<(Seq<char>, Seq<Seq<char>>)>,
) -> Seq<(Seq<char>, Seq<Seq<char>>)>
    decreases redirects.len(),
{
    if redirects.len() == 0 {
        tv
    } else {
        let t1 = merged_table(orig, tv, redirects.drop_last());
        merged_target(orig, t1, redirects.last().0, redirects.last().1)
    }
}

proof fn lemma_first_entry_unique(tv: Seq<(Seq<char>, Seq<Seq<char>>)>, t: Seq<char>, i: int, j: int)
    requires
        first_entry(tv, t, i),
        first_entry(tv, t, j),
    ensures
        i == j,
{
    if i < j {
        assert(tv[i].0 != t);
    } else if j < i {
        assert(tv[j].0 != t);
    }
}

fn find_target(table: &Vec<(String, Vec<String>)>, t: &String) -> (r: Option<usize>)
    ensures
        r.is_some() == exists|i: int| first_entry(table_view(table@), t@, i),
        r.is_some() ==> first_entry(table_view(table@), t@, r.unwrap() as int),
{
    let ghost tv = table_view(table@);
    let mut i: usize = 0;
    while i < table.len()
        invariant
            tv == table_view(table@),
            i <= table@.len(),
            forall|k: int| 0 <= k < i ==> #[trigger] tv[k].0 != t@,
        decreases table@.len() - i,
    {
        if table[i].0 == *t {
            assert(first_entry(tv, t@, i as int));
            return Some(i);
        }
        i = i + 1;
    }
    proof {
        if exists|k: int| first_entry(tv, t@, k) {
            let k = choose|k: int| first_entry(tv, t@, k);
            assert(tv[k].0 != t@);
        }
    }
    None
}

/// The table with each target and alias lowercased.
fn lowered_table(table: &Vec<(String, Vec<String>)>) -> (r: Vec<(String, Vec<String>)>)
    ensures
        r@.len() == table@.len(),
        forall|i: int| 0 <= i < r@.len() ==> (#[trigger] r@[i]).0@ == lower_of(table@[i].0@) && r@[i].1@.len()
            == table@[i].1@.len() && forall|j: int| 0 <= j < r@[i].1@.len() ==> (#[trigger] r@[i].1@[j])@ == lower_of(table@[i].1@[j]@),
{
    let mut out: Vec<(String, Vec<String>)> = Vec::new();
    let mut i: usize = 0;
    while i < table.len()
        invariant
            i <= table@.len(),
            out@.len() == i,
            forall|a: int| 0 <= a < i ==> (#[trigger] out@[a]).0@ == lower_of(table@[a].0@) && out@[a].1@.len()
                == table@[a].1@.len() && forall|j: int| 0 <= j < out@[a].1@.len() ==> (#[trigger] out@[a].1@[j])@ == lower_of(table@[a].1@[j]@),
        decreases table@.len() - i,
    {
        let list = &table[i].1;
        let mut low: Vec<String> = Vec::new();
        let mut j: usize = 0;
        while j < list.len()
            invariant
                j <= list@.len(),
                low@.len() == j,
                forall|b: int| 0 <= b < j ==> (#[trigger] low@[b])@ == lower_of(list@[b]@),
            decreases list@.len() - j,
        {
            low.push(lowercase(list[j].as_str()));
            j = j + 1;
        }
        out.push((lowercase(table[i].0.as_str()), low));
        i = i + 1;
    }
    out
}

/// Whether the lowered table gives `src` to a target other than `tgt`.
fn claimed_by_other(low: &Vec<(String, Vec<String>)>, src: &String, tgt: &String, Ghost(orig): Ghost<Seq<(Seq<char>, Seq<Seq<char>>)>>) -> (r: bool)
    requires
        low@.len() == orig.len(),
        forall|i: int| 0 <= i < low@.len() ==> (#[trigger] low@[i]).0@ == lower_of(orig[i].0) && low@[i].1@.len()
            == orig[i].1.len() && forall|j: int| 0 <= j < low@[i].1@.len() ==> (#[trigger] low@[i].1@[j])@ == lower_of(orig[i].1[j]),
    ensures
        r == claimed_elsewhere(orig, src@, tgt@),
{
    let mut i: usize = 0;
    while i < low.len()
        invariant
            i <= low@.len(),
            low@.len() == orig.len(),
            forall|i: int| 0 <= i < low@.len() ==> (#[trigger] low@[i]).0@ == lower_of(orig[i].0) && low@[i].1@.len()
                == orig[i].1.len() && forall|j: int| 0 <= j < low@[i].1@.len() ==> (#[trigger] low@[i].1@[j])@ == lower_of(orig[i].1[j]),
            forall|a: int, j: int| 0 <= a < i && 0 <= j < orig[a].1.len() ==> !(lower_of(#[trigger] orig[a].1[j]) == src@ && lower_of(orig[a].0) != tgt@),
        decreases low@.len() - i,
    {
        let entry = &low[i];
        if entry.0 != *tgt {
            assert(lower_of(orig[i as int].0) != tgt@);
            let mut j: usize = 0;
            while j < entry.1.len()
                invariant
                    j <= entry.1@.len(),
                    i < orig.len(),
                    lower_of(orig[i as int].0) != tgt@,
                    entry.1@.len() == orig[i as int].1.len(),
                    forall|b: int| 0 <= b < entry.1@.len() ==> (#[trigger] entry.1@[b])@ == lower_of(orig[i as int].1[b]),
                    forall|b: int| 0 <= b < j ==> lower_of(#[trigger] orig[i as int].1[b]) != src@,
                decreases entry.1@.len() - j,
            {
                if entry.1[j] == *src {
                    proof {
                        assert(lower_of(orig[i as int].1[j as int]) == src@);
                        assert(0 <= i < orig.len() && 0 <= j < orig[i as int].1.len() && lower_of(orig[i as int].1[j as int]) == src@
                            && lower_of(orig[i as int].0) != tgt@);
                    }
                    return true;
                }
                j = j + 1;
            }
        }
        i = i + 1;
    }
    false
}

/// Whether some alias of `list` lowercases to `src`.
fn holds_alias_exec(list: &Vec<String>, src: &String) -> (r: bool)
    ensures
        r == holds_alias(list.deep_view(), src@),
{
    let mut j: usize = 0;
    while j < list.len()
        invariant
            j <= list@.len(),
            forall|b: int| 0 <= b < j ==> lower_of(#[trigger] list.deep_view()[b]) != src@,
        decreases list@.len() - j,
    {
        let l = lowercase(list[j].as_str());
        if l == *src {
            assert(lower_of(list.deep_view()[j as int]) == src@);
            return true;
        }
        j = j + 1;
    }
    false
}

fn is_reserved_source(s: &str) -> (r: bool)
    ensures
        r == reserved_source(s@),
{
    starts_with(s, "Talk:") || starts_with(s, "File:") || starts_with(s, "Project talk:") || contains_char(s, '/')
        || ends_with(s, "(Botany)") || ends_with(s, "(botany)") || ends_with(s, "(Mycology)") || ends_with(s, "(mycology)")
}

impl SubstanceAliases {
    /// Fold redirect relationships `target → sources` into the table, in order.
    /// A source is skipped when it is a reserved page name, equals its target up
    /// to case, is already an alias of the target up to case, or is curated as
    /// an alias of a different target (curated aliases always win). A target
    /// without an entry gets one.
    pub fn merge_redirects(&mut self, redirects: &Vec<(String, Vec<String>)>)
        ensures
            table_view(final(self).aliases@) == merged_table(
                table_view(old(self).aliases@),
                table_view(old(self).aliases@),
                table_view(redirects@),
            ),
    {
        let ghost orig = table_view(self.aliases@);
        let low = lowered_table(&self.aliases);
        let mut e: usize = 0;
        while e < redirects.len()
            invariant
                e <= redirects@.len(),
                low@.len() == orig.len(),
                forall|i: int| 0 <= i < low@.len() ==> (#[trigger] low@[i]).0@ == lower_of(orig[i].0) && low@[i].1@.len()
                    == orig[i].1.len() && forall|j: int| 0 <= j < low@[i].1@.len() ==> (#[trigger] low@[i].1@[j])@ == lower_of(orig[i].1[j]),
                table_view(self.aliases@) == merged_table(orig, orig, table_view(redirects@).subrange(0, e as int)),
            decreases redirects@.len() - e,
        {
            let ghost rv = table_view(redirects@);
            proof {
                assert(rv.subrange(0, e + 1).drop_last() =~= rv.subrange(0, e as int));
            }
            let target = &redirects[e].0;
            let sources = &redirects[e].1;
            let target_lower = lowercase(target.as_str());
            let ghost tv0 = table_view(self.aliases@);
            let pos = match find_target(&self.aliases, target) {
                Some(i) => i,
                None => {
                    let fresh: Vec<String> = Vec::new();
                    assert(fresh.deep_view() =~= Seq::<Seq<char>>::empty());
                    let ghost before = self.aliases@;
                    self.aliases.push((target.clone(), fresh));
                    proof {
                        assert(self.aliases@ == before.push(self.aliases@.last()));
                        assert(table_view(self.aliases@) =~= tv0.push((target@, Seq::empty())));
                    }
                    self.aliases.len() - 1
                },
            };
            let ghost tv1 = table_view(self.aliases@);
            let ghost list0 = tv1[pos as int].1;
            proof {
                if exists|i: int| first_entry(tv0, target@, i) {
                    let i = choose|i: int| first_entry(tv0, target@, i);
                    lemma_first_entry_unique(tv0, target@, i, pos as int);
                }
            }
            let base = copy_strings(&self.aliases[pos].1);
            proof {
                assert(list0 == self.aliases@[pos as int].1.deep_view());
            }
            let mut j: usize = 0;
            while j < sources.len()
                invariant
                    j <= sources@.len(),
                    base.deep_view() == list0,
                    pos < self.aliases@.len(),
                    self.aliases@.len() == tv1.len(),
                    target_lower@ == lower_of(target@),
                    low@.len() == orig.len(),
                    forall|i: int| 0 <= i < low@.len() ==> (#[trigger] low@[i]).0@ == lower_of(orig[i].0) && low@[i].1@.len()
                        == orig[i].1.len() && forall|j: int| 0 <= j < low@[i].1@.len() ==> (#[trigger] low@[i].1@[j])@ == lower_of(orig[i].1[j]),
                    table_view(self.aliases@) == tv1.update(
                        pos as int,
                        (target@, merged_sources(orig, list0, target@, sources.deep_view().subrange(0, j as int))),
                    ),
                decreases sources@.len() - j,
            {
                proof {
                    assert(sources.deep_view().subrange(0, j + 1).drop_last() =~= sources.deep_view().subrange(0, j as int));
                }
                let src = &sources[j];
                let src_lower = lowercase(src.as_str());
                let keep = !is_reserved_source(src.as_str()) && src_lower != target_lower
                    && !holds_alias_exec(&base, &src_lower)
                    && !claimed_by_other(&low, &src_lower, &target_lower, Ghost(orig));
                if keep {
                    let ghost before = self.aliases@;
                    self.aliases[pos].1.push(src.clone());
                    proof {
                        assert(self.aliases@[pos as int].1.deep_view() =~= before[pos as int].1.deep_view().push(src@));
                        assert(self.aliases@[pos as int].0 == before[pos as int].0);
                        assert(forall|k: int| 0 <= k < before.len() && k != pos ==> self.aliases@[k] == before[k]);
                        assert(table_view(before)[pos as int] == (before[pos as int].0@, before[pos as int].1.deep_view()));
                        assert(before[pos as int].0@ == target@);
                        let lhs = table_view(self.aliases@);
                        let rhs = table_view(before).update(pos as int, (target@, before[pos as int].1.deep_view().push(src@)));
                        assert forall|k: int| 0 <= k < lhs.len() implies lhs[k] == rhs[k] by {
                            if k != pos {
                                assert(self.aliases@[k] == before[k]);
                            }
                        }
                        assert(table_view(self.aliases@) =~= table_view(before).update(pos as int, (target@, before[pos as int].1.deep_view().push(src@))));
                    }
                }
                proof {
                    assert(table_view(self.aliases@) =~= tv1.update(
                        pos as int,
                        (target@, merged_sources(orig, list0, target@, sources.deep_view().subrange(0, j + 1))),
                    ));
                }
                j = j + 1;
            }
            proof {
                assert(sources.deep_view().subrange(0, sources@.len() as int) =~= sources.deep_view());
                assert(rv[e as int] == (target@, sources.deep_view()));
                assert(table_view(self.aliases@) =~= merged_target(orig, tv0, target@, sources.deep_view()));
            }
            e = e + 1;
        }
        proof {
            assert(table_view(redirects@).subrange(0, redirects@.len() as int) =~= table_view(redirects@));
        }
    }
}

/// The indexes of a well-formed snapshot are those that the rebuild rules give
/// for its records and curated table.
pub proof fn lemma_snapshot_indexes(s: &SubstanceSnapshot)
    requires
        s.wf(),
    ensures
        s.name_index() == name_phase(s.records()),
        s.alias_index() == alias_phase(s.records(), s.table()),
        s.tag_index(TagFamily::Chemical) == tag_phase(s.records(), TagFamily::Chemical),
        s.tag_index(TagFamily::Psychoactive) == tag_phase(s.records(), TagFamily::Psychoactive),
        s.tag_index(TagFamily::Effect) == tag_phase(s.records(), TagFamily::Effect),
{
}

/// Every position held by any index of a well-formed snapshot names one of
/// its records.
pub proof fn lemma_index_positions_valid(s: &SubstanceSnapshot)
    requires
        s.wf(),
    ensures
        positions_below(s.name_index(), s.records().len()),
        positions_below(s.alias_index(), s.records().len()),
        postings_below(s.tag_index(TagFamily::Chemical), s.records().len()),
        postings_below(s.tag_index(TagFamily::Psychoactive), s.records().len()),
        postings_below(s.tag_index(TagFamily::Effect), s.records().len()),
{
}

/// The keys of the name index are the lowercased canonical names of exactly
/// the records whose name is set.
pub proof fn lemma_name_keys_exact(subs: Seq<Substance>, k: Seq<char>)
    ensures
        name_phase(subs).contains_key(k) <==> exists|i: int|
            0 <= i < subs.len() && (#[trigger] subs[i]).name.is_some() && lower_of(subs[i].name.unwrap()@) == k,
    decreases subs.len(),
{
    if subs.len() > 0 {
        let rest = subs.drop_last();
        lemma_name_keys_exact(rest, k);
        if exists|i: int| 0 <= i < rest.len() && (#[trigger] rest[i]).name.is_some() && lower_of(rest[i].name.unwrap()@) == k {
            let i = choose|i: int| 0 <= i < rest.len() && (#[trigger] rest[i]).name.is_some() && lower_of(rest[i].name.unwrap()@) == k;
            assert(subs[i] == rest[i]);
        }
        if exists|i: int| 0 <= i < subs.len() && (#[trigger] subs[i]).name.is_some() && lower_of(subs[i].name.unwrap()@) == k {
            let i = choose|i: int| 0 <= i < subs.len() && (#[trigger] subs[i]).name.is_some() && lower_of(subs[i].name.unwrap()@) == k;
            if i < subs.len() - 1 {
                assert(rest[i] == subs[i]);
            }
        }
    }
}

proof fn lemma_curated_list_disjoint(names: Map<Seq<char>, usize>, idx: usize, aliases: Seq<String>, a: Map<Seq<char>, usize>, k: Seq<char>)
    requires
        a.contains_key(k) ==> !names.contains_key(k),
    ensures
        curated_list(names, idx, aliases, a).contains_key(k) ==> !names.contains_key(k),
    decreases aliases.len(),
{
    if aliases.len() > 0 {
        lemma_curated_list_disjoint(names, idx, aliases.drop_last(), a, k);
    }
}

proof fn lemma_curated_phase_disjoint(names: Map<Seq<char>, usize>, table: Seq<(String, Vec<String>)>, k: Seq<char>)
    ensures
        curated_phase(names, table).contains_key(k) ==> !names.contains_key(k),
    decreases table.len(),
{
    if table.len() > 0 {
        lemma_curated_phase_disjoint(names, table.drop_last(), k);
        let t = lower_of(table.last().0@);
        if names.contains_key(t) {
            lemma_curated_list_disjoint(names, names[t], table.last().1@, curated_phase(names, table.drop_last()), k);
        }
    }
}

proof fn lemma_common_list_disjoint(names: Map<Seq<char>, usize>, i: usize, list: Seq<String>, a: Map<Seq<char>, usize>, k: Seq<char>)
    requires
        a.contains_key(k) ==> !names.contains_key(k),
    ensures
        common_list(names, i, list, a).contains_key(k) ==> !names.contains_key(k),
    decreases list.len(),
{
    if list.len() > 0 {
        lemma_common_list_disjoint(names, i, list.drop_last(), a, k);
    }
}

proof fn lemma_common_phase_disjoint(names: Map<Seq<char>, usize>, subs: Seq<Substance>, a: Map<Seq<char>, usize>, k: Seq<char>)
    requires
        a.contains_key(k) ==> !names.contains_key(k),
    ensures
        common_phase(names, subs, a).contains_key(k) ==> !names.contains_key(k),
    decreases subs.len(),
{
    if subs.len() > 0 {
        lemma_common_phase_disjoint(names, subs.drop_last(), a, k);
        let s = subs.last();
        if s.name.is_some() {
            let i = (subs.len() - 1) as usize;
            lemma_common_list_disjoint(names, i, opt_list(s.common_names), common_phase(names, subs.drop_last(), a), k);
        }
    }
}

proof fn lemma_systematic_phase_disjoint(names: Map<Seq<char>, usize>, subs: Seq<Substance>, a: Map<Seq<char>, usize>, k: Seq<char>)
    requires
        a.contains_key(k) ==> !names.contains_key(k),
    ensures
        systematic_phase(names, subs, a).contains_key(k) ==> !names.contains_key(k),
    decreases subs.len(),
{
    if subs.len() > 0 {
        lemma_systematic_phase_disjoint(names, subs.drop_last(), a, k);
    }
}

/// An alias never collides with a canonical name: no key is in both the
/// alias index and the name index.
pub proof fn lemma_alias_keys_not_names(s: &SubstanceSnapshot, k: Seq<char>)
    requires
        s.wf(),
    ensures
        s.alias_index().contains_key(k) ==> !s.name_index().contains_key(k),
{
    let names = name_phase(s.records());
    lemma_curated_phase_disjoint(names, s.table(), k);
    let cur = curated_phase(names, s.table());
    lemma_common_phase_disjoint(names, s.records(), cur, k);
    lemma_systematic_phase_disjoint(names, s.records(), common_phase(names, s.records(), cur), k);
}

/// The indexes are a function of the records and the curated table: two
/// well-formed snapshots with equal records and tables have equal indexes.
pub proof fn lemma_indexes_deterministic(a: &SubstanceSnapshot, b: &SubstanceSnapshot)
    requires
        a.wf(),
        b.wf(),
        a.records() == b.records(),
        a.table() == b.table(),
    ensures
        a.name_index() == b.name_index(),
        a.alias_index() == b.alias_index(),
        a.tag_index(TagFamily::Chemical) == b.tag_index(TagFamily::Chemical),
        a.tag_index(TagFamily::Psychoactive) == b.tag_index(TagFamily::Psychoactive),
        a.tag_index(TagFamily::Effect) == b.tag_index(TagFamily::Effect),
{
}

/// Lookups by name ignore case: two queries that lowercase alike find the
/// same record.
pub proof fn lemma_name_lookup_ignores_case(s: &SubstanceSnapshot, a: Seq<char>, b: Seq<char>)
    requires
        s.wf(),
        lower_of(a) == lower_of(b),
    ensures
        s.name_index().contains_key(lower_of(a)) == s.name_index().contains_key(lower_of(b)),
        s.name_index().contains_key(lower_of(a)) ==> s.name_index()[lower_of(a)] == s.name_index()[lower_of(b)],
{
}

/// The record at `i` holds its lowercased name in the name index unless a
/// later record has the same lowercased name.
pub proof fn lemma_name_phase_keeps(subs: Seq<Substance>, i: int, n: String)
    requires
        0 <= i < subs.len(),
        subs[i].name == Some(n),
        forall|j: int| i < j < subs.len() ==> name_key(#[trigger] subs[j]) != lower_of(n@) || subs[j].name.is_none(),
    ensures
        name_phase(subs).contains_key(lower_of(n@)),
        name_phase(subs)[lower_of(n@)] == i as usize,
    decreases subs.len(),
{
    if i < subs.len() - 1 {
        let rest = subs.drop_last();
        assert forall|j: int| i < j < rest.len() implies name_key(#[trigger] rest[j]) != lower_of(n@) || rest[j].name.is_none() by {
            assert(rest[j] == subs[j]);
        }
        lemma_name_phase_keeps(rest, i, n);
        let last = subs[subs.len() - 1];
        assert(name_key(last) != lower_of(n@) || last.name.is_none());
    }
}

/// Searching for a record's canonical name finds exactly that record, where
/// the name is not empty once lowercased and no later record shares it.
pub proof fn lemma_search_canonical_name(s: &SubstanceSnapshot, i: int, n: String, ps: Seq<usize>)
    requires
        s.wf(),
        0 <= i < s.records().len(),
        s.records()[i].name == Some(n),
        lower_of(n@).len() > 0,
        forall|j: int| i < j < s.records().len() ==> name_key(#[trigger] s.records()[j]) != lower_of(n@)
            || s.records()[j].name.is_none(),
        search_result(s.name_index(), s.alias_index(), s.records(), lower_of(n@), ps),
    ensures
        ps == seq![i as usize],
{
    lemma_name_phase_keeps(s.records(), i, n);
}

/// A redirect never adds an alias that the curated table gives to another
/// target: every alias after merging was in the list before or is claimed by
/// no other curated target.
pub proof fn lemma_curated_alias_wins(
    orig: Seq<(Seq<char>, Seq<Seq<char>>)>,
    list: Seq<Seq<char>>,
    tgt: Seq<char>,
    sources: Seq<Seq<char>>,
    x: Seq<char>,
)
    requires
        merged_sources(orig, list, tgt, sources).contains(x),
    ensures
        list.contains(x) || !claimed_elsewhere(orig, lower_of(x), lower_of(tgt)),
    decreases sources.len(),
{
    if sources.len() > 0 {
        let l1 = merged_sources(orig, list, tgt, sources.drop_last());
        if keeps_redirect(orig, list, tgt, sources.last()) {
            let m = l1.push(sources.last());
            let k = choose|k: int| 0 <= k < m.len() && m[k] == x;
            if k < l1.len() {
                assert(l1[k] == x);
                lemma_curated_alias_wins(orig, list, tgt, sources.drop_last(), x);
            }
        } else {
            lemma_curated_alias_wins(orig, list, tgt, sources.drop_last(), x);
        }
    }
}

/// A record that carries only a name and a page link.
pub open spec fn is_stub(s: Substance, name: Seq<char>, url: Seq<char>) -> bool {
    &&& opt_view(s.name) == Some(name)
    &&& opt_view(s.url) == Some(url)
    &&& s.class.is_none()
    &&& s.common_names.is_none()
    &&& s.systematic_name.is_none()
    &&& s.effects.is_none()
    &&& s.summary.is_none()
    &&& s.payload@.len() == 0
}

impl SubstanceSnapshot {
    /// For each name, a copy of the record of that name (case-insensitive), or
    /// a stub holding the name and `url_base` followed by the URL-encoded name.
    /// Stubs are not added to the snapshot.
    pub fn resolve_interactions(&self, names: &Vec<String>, url_base: &str) -> (r: Vec<Substance>)
        requires
            self.wf(),
        ensures
            r@.len() == names@.len(),
            forall|i: int| 0 <= i < names@.len() ==> {
                let k = lower_of(#[trigger] names@[i]@);
                if self.name_index().contains_key(k) {
                    same_substance(r@[i], self.records()[self.name_index()[k] as int])
                } else {
                    is_stub(r@[i], names@[i]@, url_base@ + url_encoded(names@[i]@))
                }
            },
    {
        let mut out: Vec<Substance> = Vec::new();
        let mut i: usize = 0;
        while i < names.len()
            invariant
                self.wf(),
                i <= names@.len(),
                out@.len() == i,
                forall|j: int| 0 <= j < i ==> {
                    let k = lower_of(#[trigger] names@[j]@);
                    if self.name_index().contains_key(k) {
                        same_substance(out@[j], self.records()[self.name_index()[k] as int])
                    } else {
                        is_stub(out@[j], names@[j]@, url_base@ + url_encoded(names@[j]@))
                    }
                },
            decreases names@.len() - i,
        {
            let name = &names[i];
            match self.get_by_name(name.as_str()) {
                Some(s) => {
                    out.push(copy_substance(s));
                },
                None => {
                    let mut url = String::from_str(url_base);
                    let enc = url_encode(name.as_str());
                    url.append(enc.as_str());
                    let stub = Substance {
                        name: Some(name.clone()),
                        url: Some(url),
                        class: None,
                        common_names: None,
                        systematic_name: None,
                        effects: None,
                        summary: None,
                        payload: Vec::new(),
                    };
                    out.push(stub);
                },
            }
            i = i + 1;
        }
        out
    }
}

} // verus!
