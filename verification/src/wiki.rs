//! Wiki-link handling: splitting a link from its fragment, decoding
//! percent-escapes, and the pre-built file index used to resolve a link
//! name to vault paths. Matching is case-insensitive via Unicode
//! lowercasing.

use vstd::prelude::*;
use vstd::multiset::Multiset;
use crate::strutil::{self, push_char, seq_views};

verus! {

/// What Unicode lowercasing of a string is; a function of its characters
/// alone.
pub uninterp spec fn lower_of(s: Seq<char>) -> Seq<char>;

/// Relies on str::to_lowercase: Unicode lowercasing, depending on the
/// characters alone.
#[verifier::external_body]
pub(crate) fn to_lowercase(s: &str) -> (r: String)
    ensures
        r@ == lower_of(s@),
{
    s.to_lowercase()
}

/// Result of resolving a wiki link.
#[derive(PartialEq, Debug)]
pub struct ResolvedLink {
    /// The resolved file path relative to the vault root.
    pub path: String,
    /// Whether the link target exists.
    pub exists: bool,
    /// All other matching paths, when the link is ambiguous.
    pub alternatives: Vec<String>,
}

/// Index of the first `'#'` in `s`, or `s.len()` if there is none.
pub open spec fn first_hash(s: Seq<char>) -> int
    decreases s.len(),
{
    if s.len() == 0 {
        0
    } else if s[0] == '#' {
        0
    } else {
        1 + first_hash(s.skip(1))
    }
}

/// `first_hash` stays within the string.
pub proof fn lemma_first_hash_bounds(s: Seq<char>)
    ensures
        0 <= first_hash(s) <= s.len(),
    decreases s.len(),
{
    if s.len() > 0 && s[0] != '#' {
        lemma_first_hash_bounds(s.skip(1));
    }
}

proof fn lemma_first_hash_is(s: Seq<char>, i: int)
    requires
        0 <= i <= s.len(),
        i < s.len() ==> s[i] == '#',
        forall|k: int| 0 <= k < i ==> s[k] != '#',
    ensures
        first_hash(s) == i,
    decreases s.len(),
{
    if s.len() > 0 && s[0] != '#' {
        assert(forall|k: int| 0 <= k < i - 1 ==> s.skip(1)[k] == s[k + 1]);
        lemma_first_hash_is(s.skip(1), i - 1);
    }
}

/// A hexadecimal digit.
pub open spec fn is_hex_digit(c: char) -> bool {
    ('0' <= c && c <= '9') || ('a' <= c && c <= 'f') || ('A' <= c && c <= 'F')
}

/// Value of a hexadecimal digit.
pub open spec fn hex_val(c: char) -> int {
    if '0' <= c && c <= '9' {
        c as int - 48
    } else if 'a' <= c && c <= 'f' {
        c as int - 87
    } else {
        c as int - 55
    }
}

/// Percent-decoding: a `%` followed by two hex digits becomes the byte they
/// denote (as a character); a failed escape keeps the `%` and the characters
/// that were consumed with it.
pub open spec fn decode_pct(s: Seq<char>) -> Seq<char>
    decreases s.len(),
{
    if s.len() == 0 {
        Seq::empty()
    } else if s[0] == '%' {
        if s.len() >= 3 && is_hex_digit(s[1]) && is_hex_digit(s[2]) {
            seq![(((hex_val(s[1]) * 16 + hex_val(s[2])) as u8) as char)] + decode_pct(s.skip(3))
        } else if s.len() >= 3 {
            seq!['%', s[1], s[2]] + decode_pct(s.skip(3))
        } else if s.len() == 2 {
            seq!['%', s[1]]
        } else {
            seq!['%']
        }
    } else {
        seq![s[0]] + decode_pct(s.skip(1))
    }
}

/// Wiki-link resolution helpers.
pub struct WikiLinkResolver;

impl WikiLinkResolver {
    /// Split a link into its target and an optional fragment (the part after
    /// the first `'#'`, a header or block reference).
    pub fn split_fragment(link: &str) -> (r: (String, Option<String>))
        ensures
            first_hash(link@) == link@.len() ==> r.0@ == link@ && r.1 is None,
            first_hash(link@) < link@.len() ==> r.0@ == link@.take(first_hash(link@)) && (
            r.1 matches Some(f) && f@ == link@.skip(first_hash(link@) + 1)),
    {
        let n: usize = link.unicode_len();
        let mut i: usize = 0;
        while i < n && link.get_char(i) != '#'
            invariant
                0 <= i <= n,
                n == link@.len(),
                forall|k: int| 0 <= k < i ==> link@[k] != '#',
            decreases n - i,
        {
            i = i + 1;
        }
        proof {
            lemma_first_hash_is(link@, i as int);
        }
        if i == n {
            (link.to_owned(), None)
        } else {
            let target = link.substring_char(0, i).to_owned();
            let fragment = link.substring_char(i + 1, n).to_owned();
            proof {
                assert(target@ =~= link@.take(i as int));
                assert(fragment@ =~= link@.skip(i + 1));
            }
            (target, Some(fragment))
        }
    }

    /// Decode percent-escapes; a malformed escape is kept as it stands.
    pub fn decode_percent_encoding(s: &str) -> (r: String)
        ensures
            r@ == decode_pct(s@),
    {
        let n: usize = s.unicode_len();
        let mut out = String::new();
        let mut i: usize = 0;
        proof {
            assert(s@.skip(0) =~= s@);
            assert(out@ + decode_pct(s@.skip(0)) =~= decode_pct(s@));
        }
        while i < n
            invariant
                0 <= i <= n,
                n == s@.len(),
                decode_pct(s@) == out@ + decode_pct(s@.skip(i as int)),
            decreases n - i,
        {
            let ghost rest = s@.skip(i as int);
            proof {
                assert(rest[0] == s@[i as int]);
                assert(rest.len() == n - i);
            }
            let c = s.get_char(i);
            let ghost opre = out@;
            if c == '%' {
                if n - i > 2 {
                    let h1 = s.get_char(i + 1);
                    let h2 = s.get_char(i + 2);
                    proof {
                        assert(rest[1] == s@[i + 1]);
                        assert(rest[2] == s@[i + 2]);
                    }
                    let d1: u32 = hex_digit_val(h1);
                    let d2: u32 = hex_digit_val(h2);
                    if d1 < 16 && d2 < 16 {
                        let byte: u8 = (d1 * 16 + d2) as u8;
                        push_char(&mut out, byte as char);
                        proof {
                            assert(is_hex_digit(h1) && is_hex_digit(h2));
                            assert(d1 == hex_val(h1) && d2 == hex_val(h2));
                            assert(out@ =~= opre + seq![
                                (((hex_val(rest[1]) * 16 + hex_val(rest[2])) as u8) as char),
                            ]);
                            assert(rest.skip(3) =~= s@.skip(i + 3));
                        }
                    } else {
                        push_char(&mut out, '%');
                        push_char(&mut out, h1);
                        push_char(&mut out, h2);
                        proof {
                            assert(!(is_hex_digit(h1) && is_hex_digit(h2)));
                            assert(out@ =~= opre + seq!['%', rest[1], rest[2]]);
                            assert(rest.skip(3) =~= s@.skip(i + 3));
                        }
                    }
                    i = i + 3;
                } else if n - i == 2 {
                    let h1 = s.get_char(i + 1);
                    push_char(&mut out, '%');
                    push_char(&mut out, h1);
                    proof {
                        assert(rest[1] == s@[i + 1]);
                        assert(rest.len() == 2);
                        assert(out@ =~= opre + seq!['%', rest[1]]);
                        assert(decode_pct(s@.skip(n as int)) =~= Seq::<char>::empty());
                    }
                    i = n;
                } else {
                    push_char(&mut out, '%');
                    proof {
                        assert(rest.len() == 1);
                        assert(out@ =~= opre + seq!['%']);
                        assert(decode_pct(s@.skip(n as int)) =~= Seq::<char>::empty());
                    }
                    i = n;
                }
            } else {
                push_char(&mut out, c);
                proof {
                    assert(out@ =~= opre + seq![rest[0]]);
                    assert(rest.skip(1) =~= s@.skip(i + 1));
                }
                i = i + 1;
            }
        }
        proof {
            assert(decode_pct(s@.skip(n as int)) =~= Seq::<char>::empty());
            assert(out@ =~= decode_pct(s@));
        }
        out
    }
}

/// Hex digit value, or 16 for a non-digit.
fn hex_digit_val(c: char) -> (r: u32)
    ensures
        is_hex_digit(c) ==> r == hex_val(c) && r < 16,
        !is_hex_digit(c) ==> r == 16,
{
    if '0' <= c && c <= '9' {
        (c as u32) - 48
    } else if 'a' <= c && c <= 'f' {
        (c as u32) - 87
    } else if 'A' <= c && c <= 'F' {
        (c as u32) - 55
    } else {
        16
    }
}

/// One indexed file under a lookup key: its vault-relative path and its
/// directory depth.
pub struct IndexEntry {
    pub path: String,
    pub depth: usize,
}

/// All files indexed under one lowercase key.
pub struct IndexBucket {
    pub key: String,
    pub entries: Vec<IndexEntry>,
}

/// Views of one bucket's entries.
pub open spec fn entry_views(es: Seq<IndexEntry>) -> Seq<(Seq<char>, nat)> {
    es.map_values(|e: IndexEntry| (e.path@, e.depth as nat))
}

/// A bucket list as a map from key to entry list.
pub open spec fn buckets_map(bs: Seq<IndexBucket>) -> Map<Seq<char>, Seq<(Seq<char>, nat)>>
    decreases bs.len(),
{
    if bs.len() == 0 {
        Map::empty()
    } else {
        buckets_map(bs.drop_last()).insert(bs.last().key@, entry_views(bs.last().entries@))
    }
}

/// Bucket keys are pairwise distinct.
pub open spec fn bucket_keys_distinct(bs: Seq<IndexBucket>) -> bool {
    forall|i: int, j: int|
        #![trigger bs[i], bs[j]]
        0 <= i < j < bs.len() ==> bs[i].key@ != bs[j].key@
}

proof fn lemma_buckets_map_index(bs: Seq<IndexBucket>, k: int)
    requires
        bucket_keys_distinct(bs),
        0 <= k < bs.len(),
    ensures
        buckets_map(bs).contains_key(bs[k].key@),
        buckets_map(bs)[bs[k].key@] == entry_views(bs[k].entries@),
    decreases bs.len(),
{
    if k < bs.len() - 1 {
        assert(bucket_keys_distinct(bs.drop_last())) by {
            assert(forall|i: int|
                0 <= i < bs.len() - 1 ==> (#[trigger] bs.drop_last()[i]) == bs[i]);
        }
        assert(bs.drop_last()[k] == bs[k]);
        lemma_buckets_map_index(bs.drop_last(), k);
        assert(bs.last() == bs[bs.len() - 1]);
    }
}

proof fn lemma_buckets_map_absent(bs: Seq<IndexBucket>, x: Seq<char>)
    requires
        forall|k: int| 0 <= k < bs.len() ==> (#[trigger] bs[k]).key@ != x,
    ensures
        !buckets_map(bs).contains_key(x),
    decreases bs.len(),
{
    if bs.len() > 0 {
        assert(forall|k: int| 0 <= k < bs.len() - 1 ==> (#[trigger] bs.drop_last()[k]) == bs[k]);
        lemma_buckets_map_absent(bs.drop_last(), x);
        assert(bs.last() == bs[bs.len() - 1]);
    }
}

proof fn lemma_buckets_map_update(bs: Seq<IndexBucket>, k: int, b: IndexBucket)
    requires
        bucket_keys_distinct(bs),
        0 <= k < bs.len(),
        b.key@ == bs[k].key@,
    ensures
        buckets_map(bs.update(k, b)) == buckets_map(bs).insert(b.key@, entry_views(b.entries@)),
    decreases bs.len(),
{
    let s2 = bs.update(k, b);
    if k == bs.len() - 1 {
        assert(s2.drop_last() =~= bs.drop_last());
        assert(s2.last() == b);
        assert(buckets_map(bs).insert(b.key@, entry_views(b.entries@)) =~= buckets_map(
            bs.drop_last(),
        ).insert(b.key@, entry_views(b.entries@)));
    } else {
        assert(bucket_keys_distinct(bs.drop_last())) by {
            assert(forall|i: int|
                0 <= i < bs.len() - 1 ==> (#[trigger] bs.drop_last()[i]) == bs[i]);
        }
        assert(s2.drop_last() =~= bs.drop_last().update(k, b));
        assert(s2.last() == bs.last());
        lemma_buckets_map_update(bs.drop_last(), k, b);
        assert(bs.last().key@ != b.key@) by {
            assert(bs.last() == bs[bs.len() - 1]);
            assert(bs[k].key@ != bs[bs.len() - 1].key@);
        }
        assert(buckets_map(bs.drop_last()).insert(b.key@, entry_views(b.entries@)).insert(
            bs.last().key@,
            entry_views(bs.last().entries@),
        ) =~= buckets_map(bs).insert(b.key@, entry_views(b.entries@)));
    }
}

/// Append an entry under a key, creating the bucket on first use.
fn bucket_push(bs: &mut Vec<IndexBucket>, key: String, path: String, depth: usize)
    requires
        bucket_keys_distinct(old(bs)@),
    ensures
        bucket_keys_distinct(final(bs)@),
        buckets_map(final(bs)@) == buckets_map(old(bs)@).insert(
            key@,
            if buckets_map(old(bs)@).contains_key(key@) {
                buckets_map(old(bs)@)[key@].push((path@, depth as nat))
            } else {
                seq![(path@, depth as nat)]
            },
        ),
{
    let ghost pre = bs@;
    let mut i: usize = 0;
    while i < bs.len()
        invariant
            0 <= i <= bs@.len(),
            pre == bs@,
            pre == old(bs)@,
            bucket_keys_distinct(pre),
            forall|k: int| 0 <= k < i ==> (#[trigger] pre[k]).key@ != key@,
        decreases bs@.len() - i,
    {
        if strutil::str_eq(bs[i].key.as_str(), key.as_str()) {
            proof {
                lemma_buckets_map_index(pre, i as int);
            }
            let bucket = bs.remove(i);
            let IndexBucket { key: bkey, mut entries } = bucket;
            let ghost epre = entries@;
            let ghost pathv = path@;
            entries.push(IndexEntry { path, depth });
            proof {
                assert(entries@[entries@.len() - 1].path@ == pathv);
                assert(entries@[entries@.len() - 1].depth == depth);
                assert(entry_views(entries@) =~= entry_views(epre).push((pathv, depth as nat)))
                    by {
                    let ev = entry_views(entries@);
                    let pv = entry_views(epre);
                    assert(forall|k: int| 0 <= k < pv.len() ==> #[trigger] ev[k] == pv[k]);
                    assert(ev[ev.len() - 1] == (pathv, depth as nat));
                }
            }
            let nb = IndexBucket { key: bkey, entries };
            bs.insert(i, nb);
            proof {
                assert(bs@ =~= pre.update(i as int, bs@[i as int]));
                assert(bs@[i as int].key@ == pre[i as int].key@);
                assert(bs@[i as int].key@ == key@);
                lemma_buckets_map_update(pre, i as int, bs@[i as int]);
                assert(pre[i as int].key@ == key@);
                assert(buckets_map(pre).contains_key(key@));
                assert(buckets_map(pre)[key@] == entry_views(epre));
                assert(entry_views(bs@[i as int].entries@) == entry_views(epre).push(
                    (pathv, depth as nat),
                ));
                assert(buckets_map(bs@) == buckets_map(pre).insert(
                    key@,
                    buckets_map(pre)[key@].push((pathv, depth as nat)),
                ));
                assert(bucket_keys_distinct(bs@)) by {
                    assert forall|x: int, y: int|
                        #![trigger bs@[x], bs@[y]]
                        0 <= x < y < bs@.len() implies bs@[x].key@ != bs@[y].key@ by {
                        assert(pre[x].key@ != pre[y].key@);
                        assert(bs@[x].key@ == pre[x].key@);
                        assert(bs@[y].key@ == pre[y].key@);
                    }
                }
            }
            return;
        }
        i = i + 1;
    }
    proof {
        lemma_buckets_map_absent(pre, key@);
    }
    let mut entries: Vec<IndexEntry> = Vec::new();
    let ghost pathv = path@;
    entries.push(IndexEntry { path, depth });
    proof {
        assert(entries@[0].path@ == pathv);
        assert(entry_views(entries@) =~= seq![(pathv, depth as nat)]);
    }
    bs.push(IndexBucket { key, entries });
    proof {
        assert(bs@.drop_last() =~= pre);
        assert(bs@.last() == bs@[bs@.len() - 1]);
        assert(bucket_keys_distinct(bs@)) by {
            assert forall|x: int, y: int|
                #![trigger bs@[x], bs@[y]]
                0 <= x < y < bs@.len() implies bs@[x].key@ != bs@[y].key@ by {
                if y < pre.len() {
                    assert(bs@[x] == pre[x] && bs@[y] == pre[y]);
                } else {
                    assert(bs@[x] == pre[x]);
                }
            }
        }
    }
}

/// Pre-built index of vault files for wiki-link resolution: one table keyed
/// by lowercase file stem, one by lowercase full file name.
pub struct FileIndex {
    pub by_stem: Vec<IndexBucket>,
    pub by_name: Vec<IndexBucket>,
}

/// Total number of entries across the name buckets.
pub open spec fn total_entries(bs: Seq<IndexBucket>) -> nat
    decreases bs.len(),
{
    if bs.len() == 0 {
        0
    } else {
        total_entries(bs.drop_last()) + bs.last().entries@.len()
    }
}

impl FileIndex {
    /// Index invariant: lookup keys are unique within each table.
    pub open spec fn wf(&self) -> bool {
        bucket_keys_distinct(self.by_stem@) && bucket_keys_distinct(self.by_name@)
    }

    /// The stem table as a map.
    pub open spec fn stems(&self) -> Map<Seq<char>, Seq<(Seq<char>, nat)>> {
        buckets_map(self.by_stem@)
    }

    /// The name table as a map.
    pub open spec fn names(&self) -> Map<Seq<char>, Seq<(Seq<char>, nat)>> {
        buckets_map(self.by_name@)
    }

    /// An empty index.
    pub fn new() -> (r: Self)
        ensures
            r.wf(),
            r.stems() =~= Map::<Seq<char>, Seq<(Seq<char>, nat)>>::empty(),
            r.names() =~= Map::<Seq<char>, Seq<(Seq<char>, nat)>>::empty(),
            r.by_name@.len() == 0,
    {
        FileIndex { by_stem: Vec::new(), by_name: Vec::new() }
    }

    /// Record one file under its lowercased stem and full name.
    pub fn add_file(&mut self, stem: &str, name: &str, path: &str, depth: usize)
        requires
            old(self).wf(),
        ensures
            final(self).wf(),
            final(self).stems() == old(self).stems().insert(
                lower_of(stem@),
                if old(self).stems().contains_key(lower_of(stem@)) {
                    old(self).stems()[lower_of(stem@)].push((path@, depth as nat))
                } else {
                    seq![(path@, depth as nat)]
                },
            ),
            final(self).names() == old(self).names().insert(
                lower_of(name@),
                if old(self).names().contains_key(lower_of(name@)) {
                    old(self).names()[lower_of(name@)].push((path@, depth as nat))
                } else {
                    seq![(path@, depth as nat)]
                },
            ),
    {
        let stem_lower = to_lowercase(stem);
        let name_lower = to_lowercase(name);
        bucket_push(&mut self.by_stem, stem_lower, path.to_owned(), depth);
        bucket_push(&mut self.by_name, name_lower, path.to_owned(), depth);
    }

    /// Total number of indexed files, saturating at the machine limit.
    pub fn file_count(&self) -> (r: usize)
        ensures
            total_entries(self.by_name@) <= usize::MAX ==> r == total_entries(self.by_name@),
            total_entries(self.by_name@) > usize::MAX ==> r == usize::MAX,
    {
        let mut total: usize = 0;
        let mut i: usize = 0;
        while i < self.by_name.len()
            invariant
                0 <= i <= self.by_name@.len(),
                total_entries(self.by_name@.take(i as int)) <= usize::MAX ==> total
                    == total_entries(self.by_name@.take(i as int)),
                total_entries(self.by_name@.take(i as int)) > usize::MAX ==> total == usize::MAX,
            decreases self.by_name@.len() - i,
        {
            proof {
                assert(self.by_name@.take(i + 1).drop_last() =~= self.by_name@.take(i as int));
                assert(self.by_name@.take(i + 1).last() == self.by_name@[i as int]);
            }
            let n = self.by_name[i].entries.len();
            if total <= usize::MAX - n {
                total = total + n;
            } else {
                total = usize::MAX;
            }
            i = i + 1;
        }
        proof {
            assert(self.by_name@.take(self.by_name@.len() as int) =~= self.by_name@);
        }
        total
    }
}


/// Lexicographic order on character sequences, by code point; this is the
/// order std gives strings.
pub open spec fn str_le(a: Seq<char>, b: Seq<char>) -> bool
    decreases a.len(),
{
    if a.len() == 0 {
        true
    } else if b.len() == 0 {
        false
    } else if a[0] != b[0] {
        (a[0] as int) < (b[0] as int)
    } else {
        str_le(a.skip(1), b.skip(1))
    }
}

/// `str_le` is total.
pub proof fn lemma_str_le_total(a: Seq<char>, b: Seq<char>)
    ensures
        str_le(a, b) || str_le(b, a),
    decreases a.len(),
{
    if a.len() > 0 && b.len() > 0 && a[0] == b[0] {
        lemma_str_le_total(a.skip(1), b.skip(1));
    }
}

/// Strictly before in lexicographic order.
pub open spec fn str_lt(a: Seq<char>, b: Seq<char>) -> bool {
    str_le(a, b) && a != b
}

/// `str_le` is antisymmetric.
pub proof fn lemma_str_le_antisym(a: Seq<char>, b: Seq<char>)
    requires
        str_le(a, b),
        str_le(b, a),
    ensures
        a == b,
    decreases a.len(),
{
    if a.len() > 0 && b.len() > 0 && a[0] == b[0] {
        lemma_str_le_antisym(a.skip(1), b.skip(1));
        assert forall|i: int| 0 <= i < a.len() implies a[i] == b[i] by {
            if i > 0 {
                assert(a.skip(1)[i - 1] == a[i]);
                assert(b.skip(1)[i - 1] == b[i]);
            }
        }
        assert(a.skip(1).len() == b.skip(1).len());
        assert(a =~= b);
    }
}

/// `str_le` is transitive.
pub proof fn lemma_str_le_trans(a: Seq<char>, b: Seq<char>, c: Seq<char>)
    requires
        str_le(a, b),
        str_le(b, c),
    ensures
        str_le(a, c),
    decreases a.len(),
{
    if a.len() > 0 && b.len() > 0 && c.len() > 0 {
        if a[0] == b[0] && b[0] == c[0] {
            lemma_str_le_trans(a.skip(1), b.skip(1), c.skip(1));
        }
    }
}

/// Lexicographic comparison of two strings.
pub fn str_le_ex(a: &str, b: &str) -> (r: bool)
    ensures
        r == str_le(a@, b@),
{
    let an: usize = a.unicode_len();
    let bn: usize = b.unicode_len();
    let mut i: usize = 0;
    proof {
        assert(a@.skip(0) =~= a@);
        assert(b@.skip(0) =~= b@);
    }
    while i < an && i < bn && a.get_char(i) == b.get_char(i)
        invariant
            0 <= i <= an,
            0 <= i <= bn,
            an == a@.len(),
            bn == b@.len(),
            str_le(a@, b@) == str_le(a@.skip(i as int), b@.skip(i as int)),
        decreases an - i,
    {
        proof {
            assert(a@.skip(i as int)[0] == a@[i as int]);
            assert(b@.skip(i as int)[0] == b@[i as int]);
            assert(a@.skip(i as int).skip(1) =~= a@.skip(i + 1));
            assert(b@.skip(i as int).skip(1) =~= b@.skip(i + 1));
        }
        i = i + 1;
    }
    proof {
        if i < an {
            assert(a@.skip(i as int)[0] == a@[i as int]);
        }
        if i < bn {
            assert(b@.skip(i as int)[0] == b@[i as int]);
        }
    }
    if i == an {
        true
    } else if i == bn {
        false
    } else {
        (a.get_char(i) as u32) < (b.get_char(i) as u32)
    }
}

/// Order on index entries: shallower first, ties broken by path.
pub open spec fn entry_le(x: (Seq<char>, nat), y: (Seq<char>, nat)) -> bool {
    x.1 < y.1 || (x.1 == y.1 && str_le(x.0, y.0))
}

proof fn lemma_entry_le_total(x: (Seq<char>, nat), y: (Seq<char>, nat))
    ensures
        entry_le(x, y) || entry_le(y, x),
{
    lemma_str_le_total(x.0, y.0);
}

proof fn lemma_entry_le_trans(x: (Seq<char>, nat), y: (Seq<char>, nat), z: (Seq<char>, nat))
    requires
        entry_le(x, y),
        entry_le(y, z),
    ensures
        entry_le(x, z),
{
    if x.1 == y.1 && y.1 == z.1 {
        lemma_str_le_trans(x.0, y.0, z.0);
    }
}

/// Entry comparison.
fn entry_le_ex(x: &IndexEntry, y: &IndexEntry) -> (r: bool)
    ensures
        r == entry_le((x.path@, x.depth as nat), (y.path@, y.depth as nat)),
{
    x.depth < y.depth || (x.depth == y.depth && str_le_ex(x.path.as_str(), y.path.as_str()))
}

/// Entries in weakly increasing order.
pub open spec fn sorted_entries(s: Seq<(Seq<char>, nat)>) -> bool {
    forall|i: int, j: int| 0 <= i < j < s.len() ==> entry_le(#[trigger] s[i], #[trigger] s[j])
}

/// Sort entries by depth, then path: the result is an ordered rearrangement
/// of the input.
fn sort_entries(input: Vec<IndexEntry>) -> (r: Vec<IndexEntry>)
    ensures
        sorted_entries(entry_views(r@)),
        entry_views(r@).to_multiset() == entry_views(input@).to_multiset(),
        r@.len() == input@.len(),
{
    broadcast use vstd::seq_lib::group_to_multiset_ensures;

    let ghost initial = entry_views(input@);
    let mut rest = input;
    let mut out: Vec<IndexEntry> = Vec::new();
    proof {
        assert(entry_views(out@) =~= Seq::<(Seq<char>, nat)>::empty());
        assert(entry_views(out@).to_multiset().add(entry_views(rest@).to_multiset())
            =~= initial.to_multiset());
    }
    while rest.len() > 0
        invariant
            sorted_entries(entry_views(out@)),
            entry_views(out@).to_multiset().add(entry_views(rest@).to_multiset())
                == initial.to_multiset(),
            out@.len() + rest@.len() == initial.len(),
            forall|i: int, j: int|
                0 <= i < entry_views(out@).len() && 0 <= j < entry_views(rest@).len()
                    ==> entry_le(
                    #[trigger] entry_views(out@)[i],
                    #[trigger] entry_views(rest@)[j],
                ),
        decreases rest@.len(),
    {
        let ghost rv = entry_views(rest@);
        // find the first minimal entry of the remainder
        let mut min: usize = 0;
        let mut j: usize = 1;
        proof {
            lemma_entry_le_total(rv[0], rv[0]);
        }
        while j < rest.len()
            invariant
                0 <= min < j <= rest@.len() || (min == 0 && j <= rest@.len()),
                min < rest@.len(),
                rv == entry_views(rest@),
                rv.len() == rest@.len(),
                forall|k: int| 0 <= k < j ==> entry_le(rv[min as int], #[trigger] rv[k]),
            decreases rest@.len() - j,
        {
            proof {
                assert(rv[j as int] == (rest@[j as int].path@, rest@[j as int].depth as nat));
                assert(rv[min as int] == (rest@[min as int].path@, rest@[min as int].depth as nat));
            }
            if !entry_le_ex(&rest[min], &rest[j]) {
                proof {
                    lemma_entry_le_total(rv[min as int], rv[j as int]);
                    assert forall|k: int| 0 <= k < j + 1 implies entry_le(
                        rv[j as int],
                        #[trigger] rv[k],
                    ) by {
                        if k < j {
                            lemma_entry_le_trans(rv[j as int], rv[min as int], rv[k]);
                        } else {
                            lemma_entry_le_total(rv[j as int], rv[j as int]);
                        }
                    }
                }
                min = j;
            }
            j = j + 1;
        }
        proof {
            assert(rv[min as int] == (rest@[min as int].path@, rest@[min as int].depth as nat));
        }
        let ghost rvec = rest@;
        let picked = rest.remove(min);
        let ghost opre = entry_views(out@);
        let ghost pickedv = (picked.path@, picked.depth as nat);
        out.push(picked);
        proof {
            assert(pickedv == rv[min as int]);
            let opost = entry_views(out@);
            assert(opost =~= opre.push(pickedv)) by {
                assert(forall|k: int| 0 <= k < opre.len() ==> #[trigger] opost[k] == opre[k]);
                assert(opost[opost.len() - 1] == pickedv);
            }
            assert(entry_views(rest@) =~= rv.remove(min as int)) by {
                rv.remove_ensures(min as int);
                let rpost = entry_views(rest@);
                assert forall|k: int| 0 <= k < rpost.len() implies #[trigger] rpost[k]
                    == rv.remove(min as int)[k] by {
                    assert(rpost[k] == (rest@[k].path@, rest@[k].depth as nat));
                    if k < min {
                        assert(rest@[k] == rvec[k]);
                        assert(rv[k] == (rvec[k].path@, rvec[k].depth as nat));
                    } else {
                        assert(rest@[k] == rvec[k + 1]);
                        assert(rv[k + 1] == (rvec[k + 1].path@, rvec[k + 1].depth as nat));
                    }
                }
            }
            opre.to_multiset_ensures();
            rv.to_multiset_ensures();
            vstd::seq_lib::to_multiset_remove(rv, min as int);
            assert(rv.contains(pickedv)) by {
                assert(rv[min as int] == pickedv);
            }
            assert(rv.to_multiset().count(pickedv) > 0);
            assert(opre.push(pickedv).to_multiset() =~= opre.to_multiset().insert(pickedv));
            assert(opost.to_multiset() =~= opre.to_multiset().insert(pickedv));
            assert(rv.remove(min as int).to_multiset() =~= rv.to_multiset().remove(pickedv));
            assert(opost.to_multiset().add(entry_views(rest@).to_multiset())
                =~= initial.to_multiset());
            assert(sorted_entries(opost)) by {
                assert forall|x: int, y: int|
                    0 <= x < y < opost.len() implies entry_le(
                    #[trigger] opost[x],
                    #[trigger] opost[y],
                ) by {
                    if y < opre.len() {
                        assert(opost[x] == opre[x] && opost[y] == opre[y]);
                    } else {
                        assert(opost[y] == pickedv);
                        assert(opost[x] == opre[x]);
                        assert(entry_le(opre[x], rv[min as int]));
                    }
                }
            }
            assert forall|x: int, y: int|
                0 <= x < opost.len() && 0 <= y < entry_views(rest@).len() implies entry_le(
                #[trigger] opost[x],
                #[trigger] entry_views(rest@)[y],
            ) by {
                let yo: int = if y < min { y } else { y + 1 };
                assert(entry_views(rest@)[y] == rv[yo]);
                if x < opre.len() {
                    assert(entry_le(opre[x], rv[yo]));
                    assert(opost[x] == opre[x]);
                } else {
                    assert(opost[x] == pickedv);
                    assert(entry_le(rv[min as int], rv[yo]));
                }
            }
        }
    }
    proof {
        assert(entry_views(rest@) =~= Seq::<(Seq<char>, nat)>::empty());
        assert(entry_views(out@).to_multiset().add(Multiset::<(Seq<char>, nat)>::empty())
            =~= entry_views(out@).to_multiset());
    }
    out
}


/// The link target with any fragment clipped off.
pub open spec fn clip_fragment(link: Seq<char>) -> Seq<char> {
    if first_hash(link) < link.len() {
        link.take(first_hash(link))
    } else {
        link
    }
}

/// The lookup key of a link: its decoded target, lowercased.
pub open spec fn link_key(link: Seq<char>) -> Seq<char> {
    lower_of(decode_pct(clip_fragment(link)))
}

/// A path with the markdown extension assumed when absent.
pub open spec fn md_suffixed(s: Seq<char>) -> Seq<char> {
    if s.len() >= 3 && s.subrange(s.len() - 3, s.len() as int) == ".md"@ {
        s
    } else {
        s + ".md"@
    }
}

/// Find the bucket holding a key.
fn find_bucket<'a>(bs: &'a Vec<IndexBucket>, key: &str) -> (r: Option<&'a IndexBucket>)
    requires
        bucket_keys_distinct(bs@),
    ensures
        r is Some <==> buckets_map(bs@).contains_key(key@),
        r matches Some(b) ==> b.key@ == key@ && buckets_map(bs@)[key@] == entry_views(b.entries@),
{
    let mut i: usize = 0;
    while i < bs.len()
        invariant
            bucket_keys_distinct(bs@),
            0 <= i <= bs@.len(),
            forall|k: int| 0 <= k < i ==> (#[trigger] bs@[k]).key@ != key@,
        decreases bs@.len() - i,
    {
        if strutil::str_eq(bs[i].key.as_str(), key) {
            proof {
                lemma_buckets_map_index(bs@, i as int);
            }
            return Some(&bs[i]);
        }
        i = i + 1;
    }
    proof {
        lemma_buckets_map_absent(bs@, key@);
    }
    None
}

/// Copy a bucket's entries.
fn clone_entries(es: &Vec<IndexEntry>) -> (r: Vec<IndexEntry>)
    ensures
        entry_views(r@) == entry_views(es@),
        r@.len() == es@.len(),
{
    let mut r: Vec<IndexEntry> = Vec::new();
    let mut i: usize = 0;
    while i < es.len()
        invariant
            0 <= i <= es@.len(),
            entry_views(r@) =~= entry_views(es@).take(i as int),
        decreases es@.len() - i,
    {
        let c = IndexEntry { path: es[i].path.clone(), depth: es[i].depth };
        let ghost pre = r@;
        r.push(c);
        proof {
            let rv = entry_views(r@);
            let ev = entry_views(es@);
            assert(entry_views(pre).len() == pre.len());
            assert(pre.len() == i);
            assert(rv.len() == r@.len());
            assert(ev.len() == es@.len());
            assert(c.path@ == es@[i as int].path@);
            assert forall|k: int| 0 <= k < rv.len() implies #[trigger] rv[k] == ev.take(i + 1)[k]
                by {
                assert(rv[k] == (r@[k].path@, r@[k].depth as nat));
                if k < pre.len() {
                    assert(r@[k] == pre[k]);
                    assert(entry_views(pre)[k] == (pre[k].path@, pre[k].depth as nat));
                }
            }
            assert(entry_views(r@) =~= entry_views(es@).take(i + 1));
        }
        i = i + 1;
    }
    proof {
        assert(entry_views(es@).take(es@.len() as int) =~= entry_views(es@));
        assert(entry_views(r@).len() == r@.len());
        assert(entry_views(es@).len() == es@.len());
    }
    r
}

impl FileIndex {
    /// The entry list a link resolves against: the full-name table first,
    /// then the name with the markdown extension assumed, then the stem
    /// table.
    pub open spec fn resolve_candidates(&self, key: Seq<char>) -> Option<Seq<(Seq<char>, nat)>> {
        if self.names().contains_key(key) {
            Option::Some(self.names()[key])
        } else if self.names().contains_key(key + ".md"@) {
            Option::Some(self.names()[key + ".md"@])
        } else if self.stems().contains_key(key) {
            Option::Some(self.stems()[key])
        } else {
            Option::None
        }
    }

    /// Resolve a wiki link against the index: the decoded, lowercased target
    /// is looked up; among matches the shallowest path (ties broken
    /// alphabetically) wins and the rest are offered as alternatives in the
    /// same order. An unmatched link yields its target with the markdown
    /// extension assumed, marked as not existing.
    pub fn resolve(&self, link: &str) -> (r: ResolvedLink)
        requires
            self.wf(),
        ensures
            ({
                let cands = self.resolve_candidates(link_key(link@));
                &&& (cands is Some && cands->0.len() > 0) ==> {
                    &&& r.exists
                    &&& exists|s: Seq<(Seq<char>, nat)>|
                        {
                            &&& #[trigger] sorted_entries(s)
                            &&& s.to_multiset() == cands->0.to_multiset()
                            &&& s.len() == cands->0.len()
                            &&& s.len() > 0
                            &&& r.path@ == s[0].0
                            &&& seq_views(r.alternatives@) == s.subrange(
                                1,
                                s.len() as int,
                            ).map_values(|e: (Seq<char>, nat)| e.0)
                        }
                }
                &&& !(cands is Some && cands->0.len() > 0) ==> {
                    &&& !r.exists
                    &&& r.alternatives@.len() == 0
                    &&& r.path@ == md_suffixed(decode_pct(clip_fragment(link@)))
                }
            }),
    {
        let (target, _fragment) = WikiLinkResolver::split_fragment(link);
        let decoded = WikiLinkResolver::decode_percent_encoding(target.as_str());
        let key = to_lowercase(decoded.as_str());
        proof {
            lemma_first_hash_bounds(link@);
            assert(target@ == clip_fragment(link@));
            assert(key@ == link_key(link@));
        }
        let mut key_md = key.clone();
        key_md.append(".md");
        proof {
            assert(key_md@ == key@ + ".md"@);
        }
        let bucket: Option<&IndexBucket> = match find_bucket(&self.by_name, key.as_str()) {
            Some(b) => Some(b),
            None => match find_bucket(&self.by_name, key_md.as_str()) {
                Some(b) => Some(b),
                None => find_bucket(&self.by_stem, key.as_str()),
            },
        };
        match bucket {
            Some(b) if b.entries.len() > 0 => {
                let ghost cands = entry_views(b.entries@);
                let sorted = sort_entries(clone_entries(&b.entries));
                proof {
                    assert(sorted@.len() == b.entries@.len());
                }
                let primary = sorted[0].path.clone();
                let mut alternatives: Vec<String> = Vec::new();
                let ghost sv = entry_views(sorted@);
                let mut k: usize = 1;
                proof {
                    assert(seq_views(alternatives@) =~= sv.subrange(1, 1).map_values(
                        |e: (Seq<char>, nat)| e.0,
                    ));
                }
                while k < sorted.len()
                    invariant
                        1 <= k <= sorted@.len(),
                        sv == entry_views(sorted@),
                        sv.len() == sorted@.len(),
                        seq_views(alternatives@) == sv.subrange(1, k as int).map_values(
                            |e: (Seq<char>, nat)| e.0,
                        ),
                    decreases sorted@.len() - k,
                {
                    let ghost apre = alternatives@;
                    alternatives.push(sorted[k].path.clone());
                    proof {
                        let av = seq_views(alternatives@);
                        let goal = sv.subrange(1, k + 1).map_values(|e: (Seq<char>, nat)| e.0);
                        assert(seq_views(apre).len() == apre.len());
                        assert(apre.len() == k - 1);
                        assert(av.len() == k);
                        assert(goal.len() == k);
                        assert forall|m: int| 0 <= m < av.len() implies #[trigger] av[m]
                            == goal[m] by {
                            assert(av[m] == alternatives@[m]@);
                            if m < apre.len() {
                                assert(alternatives@[m] == apre[m]);
                                assert(seq_views(apre)[m] == apre[m]@);
                                assert(sv.subrange(1, k as int).map_values(
                                    |e: (Seq<char>, nat)| e.0,
                                )[m] == sv[1 + m].0);
                            } else {
                                assert(alternatives@[m]@ == sorted@[k as int].path@);
                                assert(sv[k as int] == (
                                    sorted@[k as int].path@,
                                    sorted@[k as int].depth as nat,
                                ));
                            }
                            assert(goal[m] == sv[1 + m].0);
                        }
                        assert(seq_views(alternatives@) =~= goal);
                    }
                    k = k + 1;
                }
                proof {
                    assert(sv.subrange(1, sv.len() as int) =~= sv.subrange(
                        1,
                        sorted@.len() as int,
                    ));
                    assert(self.resolve_candidates(link_key(link@)) matches Option::Some(c) && c
                        == cands);
                    assert(sv[0] == (sorted@[0].path@, sorted@[0].depth as nat));
                }
                ResolvedLink { path: primary, exists: true, alternatives }
            },
            _ => {
                let dn: usize = decoded.as_str().unicode_len();
                let has_md: bool = if dn >= 3 {
                    let c0 = decoded.as_str().get_char(dn - 3);
                    let c1 = decoded.as_str().get_char(dn - 2);
                    let c2 = decoded.as_str().get_char(dn - 1);
                    proof {
                        reveal_strlit(".md");
                        if c0 == '.' && c1 == 'm' && c2 == 'd' {
                            assert(decoded@.subrange(dn - 3, dn as int) =~= ".md"@);
                        } else {
                            if decoded@.subrange(dn - 3, dn as int) == ".md"@ {
                                assert(decoded@.subrange(dn - 3, dn as int)[0] == '.');
                                assert(decoded@.subrange(dn - 3, dn as int)[1] == 'm');
                                assert(decoded@.subrange(dn - 3, dn as int)[2] == 'd');
                            }
                        }
                    }
                    c0 == '.' && c1 == 'm' && c2 == 'd'
                } else {
                    false
                };
                let path = if has_md {
                    decoded
                } else {
                    let mut p = decoded;
                    p.append(".md");
                    p
                };
                ResolvedLink { path, exists: false, alternatives: Vec::new() }
            },
        }
    }
}

} // verus!
