//! The header collector: raw response headers are filtered by the compiled
//! patterns, their values are decoded into displayable text, and the kept
//! entries are sorted by name (ties broken by original position), yielding
//! the display-ready `OrderedHeaderView`.

use vstd::prelude::*;
use crate::errors::Error;
use crate::filter::{FilterSet, spec_keep, spec_patterns_of, all_patterns_ok, names_first_invalid};
use crate::strutil::{
    lex_lt, str_lex_lt, push_char, lemma_lex_lt_asym, lemma_lex_lt_irrefl, lemma_lex_lt_trans,
    lemma_lex_lt_connected,
};

verus! {

/// A response header as received: the name, and the value as raw bytes.
pub struct RawHeader {
    /// The header name, preserved verbatim.
    pub name: String,
    /// The header value as transmitted.
    pub value: Vec<u8>,
}

/// A display-ready header: name and decoded text value.
pub struct HeaderEntry {
    /// The header name, preserved verbatim.
    pub name: String,
    /// The header value as displayable text.
    pub value: String,
}

/// The mathematical shape of a raw header.
#[verifier::ext_equal]
pub struct SpecRawHeader {
    pub name: Seq<char>,
    pub value: Seq<u8>,
}

/// The mathematical shape of a display-ready header.
#[verifier::ext_equal]
pub struct SpecEntry {
    pub name: Seq<char>,
    pub value: Seq<char>,
}

impl View for RawHeader {
    type V = SpecRawHeader;

    open spec fn view(&self) -> SpecRawHeader {
        SpecRawHeader { name: self.name@, value: self.value@ }
    }
}

impl DeepView for RawHeader {
    type V = SpecRawHeader;

    open spec fn deep_view(&self) -> SpecRawHeader {
        self.view()
    }
}

impl View for HeaderEntry {
    type V = SpecEntry;

    open spec fn view(&self) -> SpecEntry {
        SpecEntry { name: self.name@, value: self.value@ }
    }
}

impl DeepView for HeaderEntry {
    type V = SpecEntry;

    open spec fn deep_view(&self) -> SpecEntry {
        self.view()
    }
}

/// A header value byte that can be shown as text: horizontal tab, or the
/// visible ASCII range including the space.
pub open spec fn displayable_byte(b: u8) -> bool {
    b == 9 || (32 <= b < 127)
}

/// A header value is displayable when every byte is.
pub open spec fn displayable(v: Seq<u8>) -> bool {
    forall|i: int| 0 <= i < v.len() ==> displayable_byte(#[trigger] v[i])
}

/// A displayable value read as text: each byte is one character.
pub open spec fn decoded(v: Seq<u8>) -> Seq<char> {
    v.map_values(|b: u8| b as char)
}

/// Decodes a header value into text, or refuses it when a byte is not
/// displayable.
pub fn decode_value(v: &Vec<u8>) -> (r: Option<String>)
    ensures
        r is Some <==> displayable(v@),
        r matches Some(s) ==> s@ == decoded(v@),
{
    let mut out = String::new();
    let mut i: usize = 0;
    while i < v.len()
        invariant
            i <= v@.len(),
            forall|j: int| 0 <= j < i ==> displayable_byte(#[trigger] v@[j]),
            out@ =~= decoded(v@.take(i as int)),
        decreases v@.len() - i,
    {
        let b = v[i];
        if !(b == 9 || (32 <= b && b < 127)) {
            assert(!displayable_byte(v@[i as int]));
            return None;
        }
        push_char(&mut out, b as char);
        proof {
            assert(decoded(v@.take(i as int + 1)) =~= decoded(v@.take(i as int)).push(
                v@[i as int] as char,
            ));
        }
        i = i + 1;
    }
    proof {
        assert(v@.take(v@.len() as int) =~= v@);
    }
    Some(out)
}

/// The headers from position `lo` on that the filter keeps, each paired with
/// its original position.
pub open spec fn kept_from(h: Seq<SpecRawHeader>, pats: Seq<Seq<char>>, lo: int) -> Seq<
    (SpecRawHeader, int),
>
    decreases h.len() - lo,
{
    if lo < 0 || lo >= h.len() {
        Seq::empty()
    } else {
        (if spec_keep(pats, h[lo].name) {
            seq![(h[lo], lo)]
        } else {
            Seq::empty()
        }) + kept_from(h, pats, lo + 1)
    }
}

/// The headers the filter keeps, in original order, with their positions.
pub open spec fn kept_headers(h: Seq<SpecRawHeader>, pats: Seq<Seq<char>>) -> Seq<
    (SpecRawHeader, int),
> {
    kept_from(h, pats, 0)
}

/// What the kept headers are: exactly those whose name the filter keeps,
/// paired with their position.
pub proof fn lemma_kept_from_exact(
    h: Seq<SpecRawHeader>,
    pats: Seq<Seq<char>>,
    lo: int,
    e: SpecRawHeader,
    i: int,
)
    requires
        0 <= lo,
    ensures
        kept_from(h, pats, lo).contains((e, i)) <==> (lo <= i < h.len() && h[i] == e && spec_keep(
            pats,
            e.name,
        )),
    decreases h.len() - lo,
{
    if lo < h.len() {
        lemma_kept_from_exact(h, pats, lo + 1, e, i);
        let head: Seq<(SpecRawHeader, int)> = if spec_keep(pats, h[lo].name) {
            seq![(h[lo], lo)]
        } else {
            Seq::empty()
        };
        let tail = kept_from(h, pats, lo + 1);
        assert(kept_from(h, pats, lo) == head + tail);
        if kept_from(h, pats, lo).contains((e, i)) {
            let k = choose|k: int|
                0 <= k < (head + tail).len() && (head + tail)[k] == (e, i);
            if k >= head.len() {
                assert(tail[k - head.len()] == (e, i));
                assert(tail.contains((e, i)));
            }
        }
        if lo <= i < h.len() && h[i] == e && spec_keep(pats, e.name) {
            if i == lo {
                assert((head + tail)[0] == (e, i));
            } else {
                assert(tail.contains((e, i)));
                let k = choose|k: int| 0 <= k < tail.len() && tail[k] == (e, i);
                assert((head + tail)[head.len() + k] == (e, i));
            }
        }
    }
}

/// Every kept header's value is displayable.
pub open spec fn all_values_displayable(fil: Seq<(SpecRawHeader, int)>) -> bool {
    forall|i: int| 0 <= i < fil.len() ==> displayable((#[trigger] fil[i]).0.value)
}

/// The name of the first kept header whose value is not displayable.
pub open spec fn first_undisplayable_name(fil: Seq<(SpecRawHeader, int)>) -> Seq<char>
    decreases fil.len(),
{
    if fil.len() == 0 {
        Seq::empty()
    } else if !displayable(fil[0].0.value) {
        fil[0].0.name
    } else {
        first_undisplayable_name(fil.drop_first())
    }
}

/// A raw header read as a display entry: the value decoded into text.
pub open spec fn decode_entry(r: SpecRawHeader) -> SpecEntry {
    SpecEntry { name: r.name, value: decoded(r.value) }
}

/// Kept headers with their values decoded, positions preserved.
pub open spec fn decode_pairs(fil: Seq<(SpecRawHeader, int)>) -> Seq<(SpecEntry, int)> {
    fil.map_values(|p: (SpecRawHeader, int)| (decode_entry(p.0), p.1))
}

/// The sort key order: primary key the header name (lexicographic by code
/// point, which is the byte-wise order of its UTF-8 form), secondary key the
/// original position.
pub open spec fn key_lt(a: (SpecEntry, int), b: (SpecEntry, int)) -> bool {
    lex_lt(a.0.name, b.0.name) || (a.0.name == b.0.name && a.1 < b.1)
}

/// Pairwise sortedness under the key order.
pub open spec fn sorted_pairs(s: Seq<(SpecEntry, int)>) -> bool {
    forall|i: int, j: int| 0 <= i < j < s.len() ==> !key_lt(#[trigger] s[j], #[trigger] s[i])
}

/// Inserting one pair into an already sorted sequence, from the back.
pub open spec fn insert_pair(x: (SpecEntry, int), s: Seq<(SpecEntry, int)>) -> Seq<
    (SpecEntry, int),
>
    decreases s.len(),
{
    if s.len() == 0 {
        seq![x]
    } else if !key_lt(x, s.last()) {
        s.push(x)
    } else {
        insert_pair(x, s.drop_last()).push(s.last())
    }
}

/// Insertion sort over the key order; with all keys distinct this is the one
/// sorted arrangement of the input.
pub open spec fn sort_pairs(s: Seq<(SpecEntry, int)>) -> Seq<(SpecEntry, int)>
    decreases s.len(),
{
    if s.len() == 0 {
        Seq::empty()
    } else {
        insert_pair(s.last(), sort_pairs(s.drop_last()))
    }
}

/// The key order is asymmetric.
pub proof fn lemma_key_lt_asym(a: (SpecEntry, int), b: (SpecEntry, int))
    requires
        key_lt(a, b),
    ensures
        !key_lt(b, a),
{
    if key_lt(b, a) {
        if lex_lt(a.0.name, b.0.name) {
            if lex_lt(b.0.name, a.0.name) {
                lemma_lex_lt_asym(a.0.name, b.0.name);
            } else {
                lemma_lex_lt_irrefl(a.0.name);
            }
        } else {
            lemma_lex_lt_irrefl(a.0.name);
        }
    }
}

/// The complement of the key order is transitive.
pub proof fn lemma_key_le_trans(a: (SpecEntry, int), b: (SpecEntry, int), c: (SpecEntry, int))
    requires
        !key_lt(b, a),
        !key_lt(c, b),
    ensures
        !key_lt(c, a),
{
    if key_lt(c, a) {
        if lex_lt(c.0.name, a.0.name) {
            if lex_lt(b.0.name, c.0.name) {
                lemma_lex_lt_trans(b.0.name, c.0.name, a.0.name);
            } else {
                lemma_lex_lt_connected(c.0.name, b.0.name);
            }
        } else {
            // the names of a and c are equal and c's position is smaller
            if lex_lt(b.0.name, c.0.name) || lex_lt(c.0.name, b.0.name) {
                if lex_lt(b.0.name, c.0.name) {
                } else {
                    lemma_lex_lt_trans(c.0.name, b.0.name, a.0.name);
                }
            } else {
                lemma_lex_lt_connected(c.0.name, b.0.name);
            }
        }
    }
}

/// Inserting adds exactly the new pair to the contents.
pub proof fn lemma_insert_pair_multiset(x: (SpecEntry, int), s: Seq<(SpecEntry, int)>)
    ensures
        insert_pair(x, s).to_multiset() =~= s.to_multiset().insert(x),
    decreases s.len(),
{
    broadcast use vstd::seq_lib::group_to_multiset_ensures;

    if s.len() == 0 {
        assert(seq![x] =~= Seq::<(SpecEntry, int)>::empty().push(x));
    } else if !key_lt(x, s.last()) {
    } else {
        lemma_insert_pair_multiset(x, s.drop_last());
        assert(s =~= s.drop_last().push(s.last()));
        assert(insert_pair(x, s).to_multiset() =~= s.drop_last().to_multiset().insert(x).insert(
            s.last(),
        ));
        assert(s.to_multiset() =~= s.drop_last().to_multiset().insert(s.last()));
    }
}

/// Inserting into a sorted sequence keeps it sorted.
pub proof fn lemma_insert_pair_sorted(x: (SpecEntry, int), s: Seq<(SpecEntry, int)>)
    requires
        sorted_pairs(s),
    ensures
        sorted_pairs(insert_pair(x, s)),
    decreases s.len(),
{
    broadcast use vstd::seq_lib::group_to_multiset_ensures;

    if s.len() == 0 {
    } else if !key_lt(x, s.last()) {
        let r = s.push(x);
        assert forall|i: int, j: int| 0 <= i < j < r.len() implies !key_lt(r[j], r[i]) by {
            if j == s.len() {
                if i < s.len() - 1 {
                    lemma_key_le_trans(s[i], s.last(), x);
                }
            }
        }
    } else {
        let dl = s.drop_last();
        let inner = insert_pair(x, dl);
        assert(sorted_pairs(dl));
        lemma_insert_pair_sorted(x, dl);
        lemma_insert_pair_multiset(x, dl);
        lemma_key_lt_asym(x, s.last());
        let r = inner.push(s.last());
        assert forall|i: int, j: int| 0 <= i < j < r.len() implies !key_lt(r[j], r[i]) by {
            if j == inner.len() {
                // the element moved past the insertion is s.last(); everything
                // in `inner` is x or an element of s, and neither exceeds it
                let y = inner[i];
                assert(inner.contains(y));
                assert(inner.to_multiset().count(y) > 0);
                if y == x {
                } else {
                    assert(dl.to_multiset().count(y) > 0);
                    assert(dl.contains(y));
                    let k = choose|k: int| 0 <= k < dl.len() && dl[k] == y;
                    assert(s[k] == y);
                    assert(!key_lt(s.last(), s[k]));
                }
            }
        }
    }
}

/// Sorting rearranges the pairs and nothing more.
pub proof fn lemma_sort_pairs_multiset(s: Seq<(SpecEntry, int)>)
    ensures
        sort_pairs(s).to_multiset() =~= s.to_multiset(),
    decreases s.len(),
{
    broadcast use vstd::seq_lib::group_to_multiset_ensures;

    if s.len() > 0 {
        lemma_sort_pairs_multiset(s.drop_last());
        lemma_insert_pair_multiset(s.last(), sort_pairs(s.drop_last()));
        assert(s =~= s.drop_last().push(s.last()));
        assert(s.to_multiset() =~= s.drop_last().to_multiset().insert(s.last()));
    }
}

/// The sort's output is sorted.
pub proof fn lemma_sort_pairs_sorted(s: Seq<(SpecEntry, int)>)
    ensures
        sorted_pairs(sort_pairs(s)),
    decreases s.len(),
{
    if s.len() > 0 {
        lemma_sort_pairs_sorted(s.drop_last());
        lemma_insert_pair_sorted(s.last(), sort_pairs(s.drop_last()));
    }
}

/// If everything before position `j` decodes and position `j` does not, then
/// `j`'s header is the one a decode error names.
pub proof fn lemma_first_undisplayable(fil: Seq<(SpecRawHeader, int)>, j: int)
    requires
        0 <= j < fil.len(),
        !displayable(fil[j].0.value),
        forall|m: int| 0 <= m < j ==> displayable((#[trigger] fil[m]).0.value),
    ensures
        first_undisplayable_name(fil) == fil[j].0.name,
        !all_values_displayable(fil),
    decreases j,
{
    if j > 0 {
        lemma_first_undisplayable(fil.drop_first(), j - 1);
    }
}

/// The shape of an entry paired with its original position.
pub open spec fn pview(p: (HeaderEntry, usize)) -> (SpecEntry, int) {
    (p.0@, p.1 as int)
}

/// The shape of a working vector of positioned entries.
pub open spec fn pviews(s: Seq<(HeaderEntry, usize)>) -> Seq<(SpecEntry, int)> {
    s.map_values(|p: (HeaderEntry, usize)| pview(p))
}

/// Decides the key order on two positioned entries.
fn pair_lt(a: &(HeaderEntry, usize), b: &(HeaderEntry, usize)) -> (r: bool)
    ensures
        r == key_lt(pview(*a), pview(*b)),
{
    if str_lex_lt(a.0.name.as_str(), b.0.name.as_str()) {
        true
    } else if a.0.name == b.0.name {
        a.1 < b.1
    } else {
        false
    }
}

/// Inserting at the position found by scanning from the back is the same as
/// the specification's recursive insertion.
proof fn lemma_insert_pair_at(s: Seq<(SpecEntry, int)>, x: (SpecEntry, int), k: int)
    requires
        0 <= k <= s.len(),
        forall|j: int| k <= j < s.len() ==> key_lt(x, #[trigger] s[j]),
        k > 0 ==> !key_lt(x, s[k - 1]),
    ensures
        insert_pair(x, s) =~~= s.insert(k, x),
    decreases s.len(),
{
    if s.len() == 0 {
        assert(insert_pair(x, s) =~= s.insert(0, x));
    } else if k == s.len() {
        assert(!key_lt(x, s.last()));
        assert(s.push(x) =~= s.insert(k, x));
    } else {
        assert(key_lt(x, s.last()));
        lemma_insert_pair_at(s.drop_last(), x, k);
        assert(s.drop_last().insert(k, x).push(s.last()) =~~= s.insert(k, x));
    }
}

/// Inserts one positioned entry into a sorted working vector.
fn insert_entry(acc: &mut Vec<(HeaderEntry, usize)>, x: (HeaderEntry, usize))
    ensures
        pviews(final(acc)@) == insert_pair(pview(x), pviews(old(acc)@)),
{
    let ghost s = pviews(acc@);
    let mut k: usize = acc.len();
    loop
        invariant
            k <= acc@.len(),
            s == pviews(acc@),
            forall|j: int| k <= j < s.len() ==> key_lt(pview(x), #[trigger] s[j]),
        ensures
            k <= acc@.len(),
            s == pviews(acc@),
            forall|j: int| k <= j < s.len() ==> key_lt(pview(x), #[trigger] s[j]),
            k > 0 ==> !key_lt(pview(x), s[k - 1]),
        decreases k,
    {
        if k == 0 {
            break ;
        }
        if !pair_lt(&x, &acc[k - 1]) {
            break ;
        }
        k = k - 1;
    }
    proof {
        lemma_insert_pair_at(s, pview(x), k as int);
    }
    let ghost xv = pview(x);
    acc.insert(k, x);
    proof {
        assert(pviews(acc@) =~~= s.insert(k as int, xv));
    }
}

/// The filtered, display-ready collection: entries sorted by name, ties in
/// original response order.
pub struct OrderedHeaderView {
    /// The entries, in display order.
    pub entries: Vec<HeaderEntry>,
}

impl View for OrderedHeaderView {
    type V = Seq<SpecEntry>;

    open spec fn view(&self) -> Seq<SpecEntry> {
        self.entries.deep_view()
    }
}

/// The whole collector, as a value: keep what the filter keeps, decode the
/// values, sort by (name, original position).
pub open spec fn collect_pairs(h: Seq<SpecRawHeader>, pats: Seq<Seq<char>>) -> Seq<
    (SpecEntry, int),
> {
    sort_pairs(decode_pairs(kept_headers(h, pats)))
}

/// The collector's output entries, in display order.
pub open spec fn collect_entries(h: Seq<SpecRawHeader>, pats: Seq<Seq<char>>) -> Seq<SpecEntry> {
    collect_pairs(h, pats).map_values(|p: (SpecEntry, int)| p.0)
}

/// Whether collection succeeds: every kept value must decode.
pub open spec fn collect_ok(h: Seq<SpecRawHeader>, pats: Seq<Seq<char>>) -> bool {
    all_values_displayable(kept_headers(h, pats))
}

/// The name a failed collection reports.
pub open spec fn collect_err_name(h: Seq<SpecRawHeader>, pats: Seq<Seq<char>>) -> Seq<char> {
    first_undisplayable_name(kept_headers(h, pats))
}

/// Filters, decodes and sorts the response headers. Fails, naming the header,
/// as soon as a kept value is not displayable; no entry is dropped or merged.
pub fn collect(headers: &Vec<RawHeader>, filters: &FilterSet) -> (r: Result<
    OrderedHeaderView,
    Error,
>)
    requires
        filters.wf(),
    ensures
        r is Ok <==> collect_ok(headers.deep_view(), filters.patterns()),
        r matches Ok(v) ==> v@ == collect_entries(headers.deep_view(), filters.patterns()),
        r matches Err(e) ==> e matches Error::HeaderDecodeError(n) && n@ == collect_err_name(
            headers.deep_view(),
            filters.patterns(),
        ),
{
    let ghost h = headers.deep_view();
    let ghost pats = filters.patterns();
    let mut kept: Vec<(HeaderEntry, usize)> = Vec::new();
    let ghost fil: Seq<(SpecRawHeader, int)> = Seq::empty();
    let mut i: usize = 0;
    assert(kept_headers(h, pats) =~~= fil + kept_from(h, pats, 0));
    while i < headers.len()
        invariant
            filters.wf(),
            h == headers.deep_view(),
            pats == filters.patterns(),
            i <= headers@.len(),
            h.len() == headers@.len(),
            kept_headers(h, pats) =~~= fil + kept_from(h, pats, i as int),
            pviews(kept@) =~~= decode_pairs(fil),
            all_values_displayable(fil),
        decreases headers@.len() - i,
    {
        let name = &headers[i].name;
        assert(h[i as int] == headers@[i as int]@);
        if filters.keeps(name.as_str()) {
            match decode_value(&headers[i].value) {
                Option::Some(text) => {
                    let ghost old_kept = pviews(kept@);
                    let ghost old_fil = fil;
                    let entry = HeaderEntry { name: name.clone(), value: text };
                    kept.push((entry, i));
                    proof {
                        fil = fil.push((h[i as int], i as int));
                        assert(kept_from(h, pats, i as int) =~~= seq![(h[i as int], i as int)]
                            + kept_from(h, pats, i as int + 1));
                        assert(kept_headers(h, pats) =~~= fil + kept_from(h, pats, i as int + 1));
                        assert(entry@ =~~= decode_entry(h[i as int]));
                        assert(pviews(kept@) =~~= old_kept.push(pview((entry, i))));
                        assert(decode_pairs(fil) =~~= decode_pairs(old_fil).push(
                            (decode_entry(h[i as int]), i as int),
                        ));
                        assert(pviews(kept@) =~~= decode_pairs(fil));
                    }
                },
                Option::None => {
                    proof {
                        let full = kept_headers(h, pats);
                        let j = fil.len() as int;
                        assert(kept_from(h, pats, i as int) =~~= seq![(h[i as int], i as int)]
                            + kept_from(h, pats, i as int + 1));
                        assert(full[j] == (h[i as int], i as int));
                        assert(forall|m: int| 0 <= m < j ==> full[m] == fil[m]);
                        lemma_first_undisplayable(full, j);
                    }
                    return Err(Error::HeaderDecodeError(name.clone()));
                },
            }
        } else {
            proof {
                assert(kept_from(h, pats, i as int) =~~= kept_from(h, pats, i as int + 1));
            }
        }
        i = i + 1;
    }
    proof {
        assert(kept_from(h, pats, i as int) =~~= Seq::<(SpecRawHeader, int)>::empty());
        assert(kept_headers(h, pats) =~~= fil);
    }
    // sort the kept entries by (name, original position)
    let ghost unsorted = pviews(kept@);
    let mut sorted: Vec<(HeaderEntry, usize)> = Vec::new();
    let ghost done: Seq<(SpecEntry, int)> = Seq::empty();
    assert(unsorted =~~= done + pviews(kept@));
    assert(pviews(sorted@) =~~= sort_pairs(done));
    while kept.len() > 0
        invariant
            unsorted =~~= done + pviews(kept@),
            pviews(sorted@) =~~= sort_pairs(done),
        decreases kept@.len(),
    {
        let ghost pre_kept = pviews(kept@);
        let ghost old_done = done;
        let x = kept.remove(0);
        proof {
            done = done.push(pview(x));
            assert(pre_kept =~~= seq![pview(x)] + pviews(kept@));
            assert(unsorted =~~= done + pviews(kept@));
            assert(done.drop_last() =~~= old_done);
            assert(done.last() == pview(x));
        }
        insert_entry(&mut sorted, x);
        assert(pviews(sorted@) =~~= sort_pairs(done));
    }
    proof {
        assert(done =~~= unsorted);
        assert(pviews(sorted@) =~~= collect_pairs(h, pats));
    }
    // strip the positions
    let ghost target = collect_entries(h, pats);
    let mut entries: Vec<HeaderEntry> = Vec::new();
    while sorted.len() > 0
        invariant
            entries.deep_view() + pviews(sorted@).map_values(|p: (SpecEntry, int)| p.0) =~~=
            target,
        decreases sorted@.len(),
    {
        let ghost pre = pviews(sorted@);
        let ghost pre_entries = entries.deep_view();
        let p = sorted.remove(0);
        entries.push(p.0);
        proof {
            assert(pre =~~= seq![pview(p)] + pviews(sorted@));
            assert(pre.map_values(|q: (SpecEntry, int)| q.0) =~~= seq![pview(p).0] + pviews(
                sorted@,
            ).map_values(|q: (SpecEntry, int)| q.0));
            assert(entries.deep_view() =~~= pre_entries.push(p.0@));
            assert(entries.deep_view() + pviews(sorted@).map_values(|q: (SpecEntry, int)| q.0)
                =~~= target);
        }
    }
    let view = OrderedHeaderView { entries };
    proof {
        assert(pviews(sorted@).map_values(|p: (SpecEntry, int)| p.0) =~~= Seq::<SpecEntry>::empty());
        assert(view@ =~~= target);
    }
    Ok(view)
}

/// Kept headers carry their original positions: at least `lo`, within the
/// input, and strictly increasing.
pub proof fn lemma_kept_positions(h: Seq<SpecRawHeader>, pats: Seq<Seq<char>>, lo: int)
    requires
        0 <= lo,
    ensures
        forall|m: int|
            0 <= m < kept_from(h, pats, lo).len() ==> lo <= (#[trigger] kept_from(h, pats, lo)[m]).1
                < h.len(),
        forall|m: int, n: int|
            0 <= m < n < kept_from(h, pats, lo).len() ==> (#[trigger] kept_from(h, pats, lo)[m]).1
                < (#[trigger] kept_from(h, pats, lo)[n]).1,
    decreases h.len() - lo,
{
    if lo < h.len() {
        lemma_kept_positions(h, pats, lo + 1);
        let head: Seq<(SpecRawHeader, int)> = if spec_keep(pats, h[lo].name) {
            seq![(h[lo], lo)]
        } else {
            Seq::empty()
        };
        let tail = kept_from(h, pats, lo + 1);
        assert(kept_from(h, pats, lo) == head + tail);
        assert(forall|m: int|
            head.len() <= m < (head + tail).len() ==> (#[trigger] (head + tail)[m]) == tail[m
                - head.len()]);
    }
}

/// Every law about the collector's output: each pair appears exactly when its
/// header is kept, no pair is duplicated, positions are pairwise distinct,
/// the output is sorted, and equal names stay in original order.
proof fn lemma_collect_pairs_structure(h: Seq<SpecRawHeader>, pats: Seq<Seq<char>>)
    ensures
        collect_pairs(h, pats).to_multiset() =~= decode_pairs(kept_headers(h, pats)).to_multiset(),
        collect_pairs(h, pats).no_duplicates(),
        forall|m: int, n: int|
            0 <= m < n < collect_pairs(h, pats).len() ==> (#[trigger] collect_pairs(h, pats)[m]).1
                != (#[trigger] collect_pairs(h, pats)[n]).1,
        sorted_pairs(collect_pairs(h, pats)),
{
    broadcast use vstd::seq_lib::group_to_multiset_ensures;

    let kept = kept_headers(h, pats);
    let dec = decode_pairs(kept);
    let srt = collect_pairs(h, pats);
    lemma_kept_positions(h, pats, 0);
    lemma_sort_pairs_multiset(dec);
    lemma_sort_pairs_sorted(dec);
    assert(forall|m: int| 0 <= m < dec.len() ==> (#[trigger] dec[m]).1 == kept[m].1);
    assert forall|m: int, n: int|
        0 <= m < dec.len() && 0 <= n < dec.len() && m != n implies dec[m] != dec[n] by {
        if m < n {
            assert(kept[m].1 < kept[n].1);
        } else {
            assert(kept[n].1 < kept[m].1);
        }
    }
    assert(dec.no_duplicates());
    dec.lemma_multiset_has_no_duplicates();
    srt.lemma_multiset_has_no_duplicates_conv();
    assert(srt.no_duplicates());
    assert forall|m: int, n: int| 0 <= m < n < srt.len() implies (#[trigger] srt[m]).1 != (
    #[trigger] srt[n]).1 by {
        if srt[m].1 == srt[n].1 {
            assert(srt[m] != srt[n]);
            assert(srt.contains(srt[m]));
            assert(srt.contains(srt[n]));
            assert(dec.to_multiset().count(srt[m]) > 0);
            assert(dec.to_multiset().count(srt[n]) > 0);
            assert(dec.contains(srt[m]));
            assert(dec.contains(srt[n]));
            let k1 = choose|k: int| 0 <= k < dec.len() && dec[k] == srt[m];
            let k2 = choose|k: int| 0 <= k < dec.len() && dec[k] == srt[n];
            assert(dec[k1].1 == dec[k2].1);
            if k1 < k2 {
                assert(kept[k1].1 < kept[k2].1);
            } else {
                assert(kept[k2].1 < kept[k1].1);
            }
        }
    }
}

/// The collector keeps exactly the right headers: a decoded entry with
/// position `i` is in the output precisely when header `i` exists, the filter
/// keeps its name, and the entry is that header decoded; and no pair appears
/// twice.
pub proof fn lemma_collector_exact(
    h: Seq<SpecRawHeader>,
    pats: Seq<Seq<char>>,
    e: SpecEntry,
    i: int,
)
    ensures
        collect_pairs(h, pats).contains((e, i)) <==> (0 <= i < h.len() && spec_keep(
            pats,
            h[i].name,
        ) && e == decode_entry(h[i])),
        collect_pairs(h, pats).no_duplicates(),
{
    broadcast use vstd::seq_lib::group_to_multiset_ensures;

    let kept = kept_headers(h, pats);
    let dec = decode_pairs(kept);
    let srt = collect_pairs(h, pats);
    lemma_collect_pairs_structure(h, pats);
    if srt.contains((e, i)) {
        assert(dec.to_multiset().count((e, i)) > 0);
        assert(dec.contains((e, i)));
        let k = choose|k: int| 0 <= k < dec.len() && dec[k] == (e, i);
        assert(kept[k].1 == i);
        assert(kept.contains(kept[k]));
        lemma_kept_from_exact(h, pats, 0, kept[k].0, i);
        assert(h[i] == kept[k].0);
        assert(e == decode_entry(h[i]));
    }
    if 0 <= i < h.len() && spec_keep(pats, h[i].name) && e == decode_entry(h[i]) {
        lemma_kept_from_exact(h, pats, 0, h[i], i);
        assert(kept.contains((h[i], i)));
        let k = choose|k: int| 0 <= k < kept.len() && kept[k] == (h[i], i);
        assert(dec[k] == (decode_entry(h[i]), i));
        assert(dec.contains((e, i)));
        assert(srt.to_multiset().count((e, i)) > 0);
        assert(srt.contains((e, i)));
    }
}

/// Collection is deterministic: its contract fixes the output as a function
/// of the headers and the patterns alone, so two runs on the same input
/// yield the same sequence.
pub proof fn lemma_collector_deterministic(
    h: Seq<SpecRawHeader>,
    pats: Seq<Seq<char>>,
    r1: Seq<(SpecEntry, int)>,
    r2: Seq<(SpecEntry, int)>,
)
    requires
        r1 == collect_pairs(h, pats),
        r2 == collect_pairs(h, pats),
    ensures
        r1 == r2,
{
}

/// The collector's output is sorted by name, and entries with the same name
/// keep their original response order (the sort is stable).
pub proof fn lemma_collector_stable(h: Seq<SpecRawHeader>, pats: Seq<Seq<char>>)
    ensures
        sorted_pairs(collect_pairs(h, pats)),
        forall|m: int, n: int|
            0 <= m < n < collect_pairs(h, pats).len() && (#[trigger] collect_pairs(h, pats)[m]).0.name
                == (#[trigger] collect_pairs(h, pats)[n]).0.name ==> collect_pairs(h, pats)[m].1
                < collect_pairs(h, pats)[n].1,
{
    let srt = collect_pairs(h, pats);
    lemma_collect_pairs_structure(h, pats);
    assert forall|m: int, n: int|
        0 <= m < n < srt.len() && (#[trigger] srt[m]).0.name == (#[trigger] srt[n]).0.name implies
        srt[m].1 < srt[n].1 by {
        assert(!key_lt(srt[n], srt[m]));
        assert(srt[m].1 != srt[n].1);
    }
}

/// The response headers together with the raw filter expression, ready to be
/// parsed into an `OrderedHeaderView`.
pub struct Headers {
    map: Vec<RawHeader>,
    filters: Option<String>,
}

/// The ordered headers a successful parse produces.
pub struct Parsed {
    /// The filtered, sorted entries.
    pub headers: OrderedHeaderView,
}

impl View for Parsed {
    type V = Seq<SpecEntry>;

    open spec fn view(&self) -> Seq<SpecEntry> {
        self.headers@
    }
}

impl Headers {
    /// The raw headers held.
    pub closed spec fn entries_view(&self) -> Seq<SpecRawHeader> {
        self.map.deep_view()
    }

    /// The filter patterns the held expression splits into.
    pub closed spec fn filter_patterns(&self) -> Seq<Seq<char>> {
        spec_patterns_of(&self.filters)
    }

    /// Packs the raw response headers with the filter expression.
    pub fn new(map: Vec<RawHeader>, filters: Option<String>) -> (h: Headers)
        ensures
            h.entries_view() == map.deep_view(),
            h.filter_patterns() == spec_patterns_of(&filters),
    {
        Headers { map, filters }
    }

    /// Compiles the filters and collects the headers: the result holds
    /// exactly the headers a pattern keeps (all of them, for no patterns),
    /// values decoded, sorted by name with ties in original order. Fails with
    /// `InvalidPattern` on the first pattern the regex compiler refuses, and
    /// with `HeaderDecodeError` on the first kept header whose value is not
    /// displayable text.
    pub fn parse(&self) -> (r: Result<Parsed, Error>)
        ensures
            r is Ok <==> (all_patterns_ok(self.filter_patterns()) && collect_ok(
                self.entries_view(),
                self.filter_patterns(),
            )),
            r matches Ok(p) ==> p@ == collect_entries(self.entries_view(), self.filter_patterns()),
            r matches Err(e) ==> (names_first_invalid(self.filter_patterns(), e) || (
            all_patterns_ok(self.filter_patterns()) && (e matches Error::HeaderDecodeError(n)
                && n@ == collect_err_name(self.entries_view(), self.filter_patterns())))),
    {
        let filters = match FilterSet::compile(&self.filters) {
            Result::Ok(fs) => fs,
            Result::Err(e) => {
                return Err(e);
            },
        };
        match collect(&self.map, &filters) {
            Result::Ok(view) => Ok(Parsed { headers: view }),
            Result::Err(e) => Err(e),
        }
    }
}

} // verus!
