//! Bencode values: the serialization format used by torrent metainfo files
//! and tracker responses, with four kinds of term (integer, byte string,
//! list, dictionary).

use vstd::prelude::*;

verus! {

/// A decoded bencode term. Dictionaries keep their entries in insertion
/// order, each key a byte string.
#[derive(Debug, PartialEq, Eq)]
pub enum BencodeValue {
    Integer(i64),
    ByteString(Vec<u8>),
    List(Vec<BencodeValue>),
    Dictionary(Vec<(Vec<u8>, BencodeValue)>),
}

/// The mathematical model of a bencode term.
pub enum SpecValue {
    Integer(int),
    ByteString(Seq<u8>),
    List(Seq<SpecValue>),
    Dictionary(Seq<(Seq<u8>, SpecValue)>),
}

impl BencodeValue {
    /// The model of this value: integers widen to `int`, vectors become
    /// sequences, recursively.
    pub open spec fn view(self) -> SpecValue
        decreases self,
    {
        match self {
            BencodeValue::Integer(i) => SpecValue::Integer(i as int),
            BencodeValue::ByteString(s) => SpecValue::ByteString(s@),
            BencodeValue::List(vs) => SpecValue::List(view_items(vs@)),
            BencodeValue::Dictionary(ps) => SpecValue::Dictionary(view_pairs(ps@)),
        }
    }
}

/// The models of a sequence of values, in order.
pub open spec fn view_items(vs: Seq<BencodeValue>) -> Seq<SpecValue>
    decreases vs,
{
    if vs.len() == 0 {
        Seq::empty()
    } else {
        seq![vs[0].view()] + view_items(vs.drop_first())
    }
}

/// The models of a sequence of key/value entries, in order.
pub open spec fn view_pairs(ps: Seq<(Vec<u8>, BencodeValue)>) -> Seq<(Seq<u8>, SpecValue)>
    decreases ps,
{
    if ps.len() == 0 {
        Seq::empty()
    } else {
        seq![(ps[0].0@, ps[0].1.view())] + view_pairs(ps.drop_first())
    }
}

/// `view_items` maps each element to its model, keeping length and order.
pub broadcast proof fn lemma_view_items(vs: Seq<BencodeValue>)
    ensures
        (#[trigger] view_items(vs)).len() == vs.len(),
        forall|i: int| 0 <= i < vs.len() ==> #[trigger] view_items(vs)[i] == vs[i].view(),
    decreases vs.len(),
{
    if vs.len() > 0 {
        lemma_view_items(vs.drop_first());
        assert forall|i: int| 0 <= i < vs.len() implies #[trigger] view_items(vs)[i] == vs[i]
            .view() by {
            if i > 0 {
                assert(vs.drop_first()[i - 1] == vs[i]);
            }
        }
    }
}

/// Lexicographic order on byte strings: the order bencode requires of
/// dictionary keys in a canonical encoding.
pub open spec fn lex_le(a: Seq<u8>, b: Seq<u8>) -> bool
    decreases a.len(),
{
    if a.len() == 0 {
        true
    } else if b.len() == 0 {
        false
    } else if a[0] < b[0] {
        true
    } else if a[0] > b[0] {
        false
    } else {
        lex_le(a.drop_first(), b.drop_first())
    }
}

/// `lex_le` is reflexive.
pub proof fn lemma_lex_le_refl(a: Seq<u8>)
    ensures
        lex_le(a, a),
    decreases a.len(),
{
    if a.len() > 0 {
        lemma_lex_le_refl(a.drop_first());
    }
}

/// `lex_le` holds in at least one direction between any two byte strings.
pub proof fn lemma_lex_le_connected(a: Seq<u8>, b: Seq<u8>)
    ensures
        lex_le(a, b) || lex_le(b, a),
    decreases a.len(),
{
    if a.len() > 0 && b.len() > 0 && a[0] == b[0] {
        lemma_lex_le_connected(a.drop_first(), b.drop_first());
    }
}

/// `lex_le` in both directions only between equal byte strings.
pub proof fn lemma_lex_le_antisymmetric(a: Seq<u8>, b: Seq<u8>)
    requires
        lex_le(a, b),
        lex_le(b, a),
    ensures
        a == b,
    decreases a.len(),
{
    if a.len() > 0 {
        lemma_lex_le_antisymmetric(a.drop_first(), b.drop_first());
        assert(a =~= seq![a[0]] + a.drop_first());
        assert(b =~= seq![b[0]] + b.drop_first());
    } else {
        if b.len() > 0 {
            assert(!lex_le(b, a));
        }
        assert(a =~= b);
    }
}

/// `lex_le` is transitive.
pub proof fn lemma_lex_le_transitive(a: Seq<u8>, b: Seq<u8>, c: Seq<u8>)
    requires
        lex_le(a, b),
        lex_le(b, c),
    ensures
        lex_le(a, c),
    decreases a.len(),
{
    if a.len() > 0 && b.len() > 0 && c.len() > 0 && a[0] == b[0] && b[0] == c[0] {
        lemma_lex_le_transitive(a.drop_first(), b.drop_first(), c.drop_first());
    }
}

/// `view_pairs` maps each entry to its model, keeping length and order.
pub broadcast proof fn lemma_view_pairs(ps: Seq<(Vec<u8>, BencodeValue)>)
    ensures
        (#[trigger] view_pairs(ps)).len() == ps.len(),
        forall|i: int| 0 <= i < ps.len() ==> #[trigger] view_pairs(ps)[i] == (ps[i].0@, ps[i].1.view()),
    decreases ps.len(),
{
    if ps.len() > 0 {
        lemma_view_pairs(ps.drop_first());
        assert forall|i: int| 0 <= i < ps.len() implies #[trigger] view_pairs(ps)[i] == (
            ps[i].0@,
            ps[i].1.view(),
        ) by {
            if i > 0 {
                assert(ps.drop_first()[i - 1] == ps[i]);
            }
        }
    }
}

/// Insert one entry into a key-sorted entry sequence, keeping it sorted.
pub open spec fn insert_entry_sorted(
    ps: Seq<(Seq<u8>, SpecValue)>,
    p: (Seq<u8>, SpecValue),
) -> Seq<(Seq<u8>, SpecValue)>
    decreases ps.len(),
{
    if ps.len() == 0 {
        seq![p]
    } else if lex_le(p.0, ps[0].0) {
        seq![p] + ps
    } else {
        seq![ps[0]] + insert_entry_sorted(ps.drop_first(), p)
    }
}

/// Sort dictionary entries by key, ascending lexicographic byte order.
pub open spec fn sort_entries(ps: Seq<(Seq<u8>, SpecValue)>) -> Seq<(Seq<u8>, SpecValue)>
    decreases ps.len(),
{
    if ps.len() == 0 {
        Seq::empty()
    } else {
        insert_entry_sorted(sort_entries(ps.drop_last()), ps.last())
    }
}

/// No two entries share a key.
pub open spec fn unique_keys(ps: Seq<(Seq<u8>, SpecValue)>) -> bool {
    forall|i: int, j: int| 0 <= i < j < ps.len() ==> ps[i].0 != ps[j].0
}

/// The canonical form of a value: every dictionary, at every depth, has its
/// entries sorted by key. Encoding emits exactly this arrangement.
pub open spec fn canon(v: SpecValue) -> SpecValue
    decreases v,
{
    match v {
        SpecValue::Integer(i) => SpecValue::Integer(i),
        SpecValue::ByteString(s) => SpecValue::ByteString(s),
        SpecValue::List(items) => SpecValue::List(canon_items(items)),
        SpecValue::Dictionary(ps) => SpecValue::Dictionary(sort_entries(canon_entries(ps))),
    }
}

/// `canon` applied to each element of a list.
pub open spec fn canon_items(items: Seq<SpecValue>) -> Seq<SpecValue>
    decreases items,
{
    if items.len() == 0 {
        Seq::empty()
    } else {
        seq![canon(items[0])] + canon_items(items.drop_first())
    }
}

/// `canon` applied to the value of each dictionary entry.
pub open spec fn canon_entries(ps: Seq<(Seq<u8>, SpecValue)>) -> Seq<(Seq<u8>, SpecValue)>
    decreases ps,
{
    if ps.len() == 0 {
        Seq::empty()
    } else {
        seq![(ps[0].0, canon(ps[0].1))] + canon_entries(ps.drop_first())
    }
}

/// A value the codec can faithfully reproduce: every integer fits in an
/// `i64` and every dictionary has distinct keys.
pub open spec fn wf_value(v: SpecValue) -> bool
    decreases v,
{
    match v {
        SpecValue::Integer(i) => i64::MIN <= i <= i64::MAX,
        SpecValue::ByteString(_) => true,
        SpecValue::List(items) => wf_items(items),
        SpecValue::Dictionary(ps) => unique_keys(ps) && wf_entries(ps),
    }
}

/// `wf_value` for every element of a list.
pub open spec fn wf_items(items: Seq<SpecValue>) -> bool
    decreases items,
{
    if items.len() == 0 {
        true
    } else {
        wf_value(items[0]) && wf_items(items.drop_first())
    }
}

/// `wf_value` for every value of a dictionary.
pub open spec fn wf_entries(ps: Seq<(Seq<u8>, SpecValue)>) -> bool
    decreases ps,
{
    if ps.len() == 0 {
        true
    } else {
        wf_value(ps[0].1) && wf_entries(ps.drop_first())
    }
}

/// The decimal digits of `n`, most significant first, no leading zeros.
pub open spec fn nat_digits(n: nat) -> Seq<u8>
    decreases n,
{
    if n < 10 {
        seq![(48 + n) as u8]
    } else {
        nat_digits(n / 10) + seq![(48 + n % 10) as u8]
    }
}

/// The minimal decimal form of `i`: digits, preceded by `-` when negative.
pub open spec fn int_digits(i: int) -> Seq<u8> {
    if i < 0 {
        seq![45u8] + nat_digits((-i) as nat)
    } else {
        nat_digits(i as nat)
    }
}

/// The bencoding of `v` with dictionary entries emitted in the order they
/// stand; canonical exactly when `v` is its own `canon`.
pub open spec fn raw_encode(v: SpecValue) -> Seq<u8>
    decreases v,
{
    match v {
        SpecValue::Integer(i) => seq![105u8] + int_digits(i) + seq![101u8],
        SpecValue::ByteString(s) => nat_digits(s.len()) + seq![58u8] + s,
        SpecValue::List(items) => seq![108u8] + raw_encode_items(items) + seq![101u8],
        SpecValue::Dictionary(ps) => seq![100u8] + raw_encode_entries(ps) + seq![101u8],
    }
}

/// The concatenated encodings of a list's elements.
pub open spec fn raw_encode_items(items: Seq<SpecValue>) -> Seq<u8>
    decreases items,
{
    if items.len() == 0 {
        Seq::empty()
    } else {
        raw_encode(items[0]) + raw_encode_items(items.drop_first())
    }
}

/// The concatenated encodings of a dictionary's entries, each a byte-string
/// key followed by its value.
pub open spec fn raw_encode_entries(ps: Seq<(Seq<u8>, SpecValue)>) -> Seq<u8>
    decreases ps,
{
    if ps.len() == 0 {
        Seq::empty()
    } else {
        nat_digits(ps[0].0.len()) + seq![58u8] + ps[0].0 + raw_encode(ps[0].1)
            + raw_encode_entries(ps.drop_first())
    }
}

/// The canonical bencoding of `v`: dictionary keys in ascending
/// lexicographic byte order at every depth, integers in minimal decimal
/// form.
pub open spec fn spec_encode(v: SpecValue) -> Seq<u8> {
    raw_encode(canon(v))
}

/// Whether `b` is an ASCII decimal digit.
pub open spec fn is_digit(b: u8) -> bool {
    48 <= b <= 57
}

/// Every byte of `d` is an ASCII decimal digit.
pub open spec fn all_digits(d: Seq<u8>) -> bool {
    forall|i: int| 0 <= i < d.len() ==> is_digit(#[trigger] d[i])
}

/// The number the digit string `d` denotes, most significant digit first
/// (the empty string denotes 0).
pub open spec fn digits_value(d: Seq<u8>) -> int
    decreases d.len(),
{
    if d.len() == 0 {
        0
    } else {
        digits_value(d.drop_last()) * 10 + d.last() - 48
    }
}

/// A digit string the decoder accepts as an unsigned number: nonempty, all
/// digits, and no superfluous leading zero.
pub open spec fn valid_nat_digits(d: Seq<u8>) -> bool {
    d.len() > 0 && all_digits(d) && (d.len() == 1 || d[0] != 48)
}

/// A digit string the decoder accepts between `i` and `e`: an optional
/// minus sign, then digits with no superfluous leading zero; `-0` is
/// rejected.
pub open spec fn valid_int_digits(d: Seq<u8>) -> bool {
    if d.len() > 0 && d[0] == 45 {
        valid_nat_digits(d.drop_first()) && d.drop_first() != seq![48u8]
    } else {
        valid_nat_digits(d)
    }
}

/// The signed number denoted by an integer digit string.
pub open spec fn int_digits_value(d: Seq<u8>) -> int {
    if d.len() > 0 && d[0] == 45 {
        -digits_value(d.drop_first())
    } else {
        digits_value(d)
    }
}

/// The position of the first occurrence of `b` in `s`, if any.
pub open spec fn find_byte(s: Seq<u8>, b: u8) -> Option<int>
    decreases s.len(),
{
    if s.len() == 0 {
        None
    } else if s[0] == b {
        Some(0)
    } else {
        match find_byte(s.drop_first(), b) {
            Some(i) => Some(i + 1),
            None => None,
        }
    }
}

/// What `find_byte` returns: the first position holding `b`, or nothing
/// when `b` does not occur.
pub proof fn lemma_find_byte(s: Seq<u8>, b: u8)
    ensures
        match find_byte(s, b) {
            Some(i) => 0 <= i < s.len() && s[i] == b && forall|t: int|
                0 <= t < i ==> s[t] != b,
            None => forall|t: int| 0 <= t < s.len() ==> s[t] != b,
        },
    decreases s.len(),
{
    if s.len() > 0 && s[0] != b {
        lemma_find_byte(s.drop_first(), b);
        match find_byte(s.drop_first(), b) {
            Some(i) => {
                assert forall|t: int| 0 <= t < i + 1 implies s[t] != b by {
                    if t > 0 {
                        assert(s.drop_first()[t - 1] == s[t]);
                    }
                }
            },
            None => {
                assert forall|t: int| 0 <= t < s.len() implies s[t] != b by {
                    if t > 0 {
                        assert(s.drop_first()[t - 1] == s[t]);
                    }
                }
            },
        }
    }
}

/// Insert a key/value pair into insertion-ordered dictionary entries: a
/// pair with the same key is replaced in place, a new key is appended.
pub open spec fn dict_insert(
    ps: Seq<(Seq<u8>, SpecValue)>,
    k: Seq<u8>,
    v: SpecValue,
) -> Seq<(Seq<u8>, SpecValue)>
    decreases ps.len(),
{
    if ps.len() == 0 {
        seq![(k, v)]
    } else if ps[0].0 == k {
        seq![(k, v)] + ps.drop_first()
    } else {
        seq![ps[0]] + dict_insert(ps.drop_first(), k, v)
    }
}

/// Fold a parse-ordered pair list into dictionary entries by successive
/// insertion.
pub open spec fn entries_from_pairs(raw: Seq<(Seq<u8>, SpecValue)>) -> Seq<(Seq<u8>, SpecValue)>
    decreases raw.len(),
{
    if raw.len() == 0 {
        Seq::empty()
    } else {
        dict_insert(entries_from_pairs(raw.drop_last()), raw.last().0, raw.last().1)
    }
}

/// Decode one bencode term from the front of `s`: the term's value and the
/// unconsumed remainder, or nothing when no term can be read.
pub open spec fn spec_decode(s: Seq<u8>) -> Option<(SpecValue, Seq<u8>)>
    decreases s.len(), 1int,
{
    if s.len() == 0 {
        None
    } else if s[0] == 105 {
        let body = s.drop_first();
        match find_byte(body, 101) {
            Some(j) => {
                let d = body.take(j);
                if valid_int_digits(d) && i64::MIN <= int_digits_value(d) <= i64::MAX {
                    Some((SpecValue::Integer(int_digits_value(d)), body.skip(j + 1)))
                } else {
                    None
                }
            },
            None => None,
        }
    } else if is_digit(s[0]) {
        match find_byte(s, 58) {
            Some(j) => {
                let d = s.take(j);
                if valid_nat_digits(d) {
                    let n = digits_value(d);
                    let body = s.skip(j + 1);
                    if n <= body.len() {
                        Some((SpecValue::ByteString(body.take(n)), body.skip(n)))
                    } else {
                        None
                    }
                } else {
                    None
                }
            },
            None => None,
        }
    } else if s[0] == 108 {
        match spec_decode_items(s.drop_first()) {
            Some((items, rest)) => Some((SpecValue::List(items), rest.drop_first())),
            None => None,
        }
    } else if s[0] == 100 {
        match spec_decode_entries(s.drop_first()) {
            Some((raw, rest)) => Some(
                (SpecValue::Dictionary(entries_from_pairs(raw)), rest.drop_first()),
            ),
            None => None,
        }
    } else {
        None
    }
}

/// Decode list elements until a terminating `e`, which is left in the
/// remainder.
pub open spec fn spec_decode_items(s: Seq<u8>) -> Option<(Seq<SpecValue>, Seq<u8>)>
    decreases s.len(), 2int,
{
    if s.len() == 0 {
        None
    } else if s[0] == 101 {
        Some((Seq::empty(), s))
    } else {
        match spec_decode(s) {
            Some((v, rest)) => if rest.len() < s.len() {
                match spec_decode_items(rest) {
                    Some((items, rest2)) => Some((seq![v] + items, rest2)),
                    None => None,
                }
            } else {
                None
            },
            None => None,
        }
    }
}

/// Decode dictionary entries, a byte-string key then a value each, until a
/// terminating `e`, which is left in the remainder. Pairs are returned in
/// parse order.
pub open spec fn spec_decode_entries(s: Seq<u8>) -> Option<
    (Seq<(Seq<u8>, SpecValue)>, Seq<u8>),
>
    decreases s.len(), 2int,
{
    if s.len() == 0 {
        None
    } else if s[0] == 101 {
        Some((Seq::empty(), s))
    } else {
        match spec_decode(s) {
            Some((k, rest)) => match k {
                SpecValue::ByteString(key) => if rest.len() < s.len() {
                    match spec_decode(rest) {
                        Some((v, rest2)) => if rest2.len() < rest.len() {
                            match spec_decode_entries(rest2) {
                                Some((pairs, rest3)) => Some((seq![(key, v)] + pairs, rest3)),
                                None => None,
                            }
                        } else {
                            None
                        },
                        None => None,
                    }
                } else {
                    None
                },
                _ => None,
            },
            None => None,
        }
    }
}

/// A digit string denotes a nonnegative number.
pub proof fn lemma_digits_value_nonneg(d: Seq<u8>)
    requires
        all_digits(d),
    ensures
        digits_value(d) >= 0,
    decreases d.len(),
{
    if d.len() > 0 {
        assert(all_digits(d.drop_last()));
        lemma_digits_value_nonneg(d.drop_last());
    }
}

/// A digit string denotes at least what any of its prefixes denotes.
pub proof fn lemma_digits_value_prefix(d: Seq<u8>, i: int)
    requires
        all_digits(d),
        0 <= i <= d.len(),
    ensures
        digits_value(d.take(i)) <= digits_value(d),
    decreases d.len(),
{
    if i == d.len() {
        assert(d.take(i) =~= d);
    } else {
        assert(all_digits(d.drop_last()));
        assert(d.take(i) =~= d.drop_last().take(i));
        lemma_digits_value_prefix(d.drop_last(), i);
        lemma_digits_value_nonneg(d.drop_last());
    }
}

/// Among accepted unsigned digit strings, only `0` denotes zero.
pub proof fn lemma_valid_digits_zero_iff(d: Seq<u8>)
    requires
        valid_nat_digits(d),
    ensures
        digits_value(d) == 0 <==> d =~= seq![48u8],
    decreases d.len(),
{
    if d.len() == 1 {
        assert(d.drop_last() =~= Seq::<u8>::empty());
        assert(digits_value(Seq::<u8>::empty()) == 0);
        assert(digits_value(d) == d[0] - 48);
        if digits_value(d) == 0 {
            assert(d =~= seq![48u8]);
        }
    } else {
        let dl = d.drop_last();
        assert(all_digits(dl));
        assert(valid_nat_digits(dl));
        lemma_valid_digits_zero_iff(dl);
        lemma_digits_value_nonneg(dl);
        assert(!(dl =~= seq![48u8])) by {
            if dl =~= seq![48u8] {
                assert(d[0] == dl[0]);
            }
        }
        assert(digits_value(dl) >= 1);
        assert(is_digit(d[d.len() - 1]));
        assert(digits_value(d) == digits_value(dl) * 10 + d.last() - 48);
        assert(digits_value(d) >= 10);
    }
}

/// The decode error cases: one for each way an input can fail to hold a
/// bencode term where one is expected.
#[derive(Clone, Copy, Debug, PartialEq, Eq, Structural)]
pub enum DecodeError {
    /// The input ends where a term, a digit, or a terminator is expected.
    Truncated,
    /// The digits between `i` and `e` do not denote an `i64` in minimal
    /// decimal form.
    BadInteger,
    /// The digits before `:` do not denote a length, or fewer bytes follow
    /// than the length announces.
    BadLengthPrefix,
    /// A list or dictionary is not closed by `e`.
    Unterminated,
    /// A dictionary key is not a byte string.
    NonStringKey,
    /// The leading byte opens no bencode term.
    UnhandledValue,
}

/// Parse the digits of `input[start..end]` as an unsigned number, rejecting
/// superfluous leading zeros and values beyond `u64`.
fn parse_digits_u64(input: &[u8], start: usize, end: usize) -> (r: Option<u64>)
    requires
        start <= end <= input@.len(),
    ensures
        match r {
            Some(n) => valid_nat_digits(input@.subrange(start as int, end as int)) && n as int
                == digits_value(input@.subrange(start as int, end as int)),
            None => !valid_nat_digits(input@.subrange(start as int, end as int)) || digits_value(
                input@.subrange(start as int, end as int),
            ) > u64::MAX,
        },
{
    let ghost sub = input@.subrange(start as int, end as int);
    if start == end {
        return None;
    }
    if end - start > 1 && input[start] == 48 {
        return None;
    }
    let mut acc: u64 = 0;
    let mut i: usize = start;
    while i < end
        invariant
            start <= i <= end <= input@.len(),
            sub == input@.subrange(start as int, end as int),
            all_digits(sub.take(i - start)),
            acc as int == digits_value(sub.take(i - start)),
        decreases end - i,
    {
        let d = input[i];
        if !(48 <= d && d <= 57) {
            assert(sub[i - start] == d);
            return None;
        }
        proof {
            assert(sub.take(i + 1 - start).drop_last() =~= sub.take(i - start));
            assert(sub.take(i + 1 - start).last() == d);
            assert forall|t: int| 0 <= t < i + 1 - start implies is_digit(
                #[trigger] sub.take(i + 1 - start)[t],
            ) by {
                if t < i - start {
                    assert(is_digit(sub.take(i - start)[t]));
                }
            }
        }
        if acc > u64::MAX / 10 {
            proof {
                assert(digits_value(sub.take(i + 1 - start)) == acc * 10 + d - 48);
                if all_digits(sub) {
                    lemma_digits_value_prefix(sub, i + 1 - start);
                }
            }
            return None;
        }
        let next = acc * 10;
        if (d - 48) as u64 > u64::MAX - next {
            proof {
                assert(digits_value(sub.take(i + 1 - start)) == acc * 10 + d - 48);
                if all_digits(sub) {
                    lemma_digits_value_prefix(sub, i + 1 - start);
                }
            }
            return None;
        }
        acc = next + (d - 48) as u64;
        i = i + 1;
    }
    assert(sub.take(end - start) =~= sub);
    Some(acc)
}

/// Parse the digits of `input[start..end]` as a signed number in minimal
/// decimal form, rejecting `-0` and values beyond `i64`.
fn parse_digits_i64(input: &[u8], start: usize, end: usize) -> (r: Option<i64>)
    requires
        start <= end <= input@.len(),
    ensures
        match r {
            Some(x) => valid_int_digits(input@.subrange(start as int, end as int)) && x as int
                == int_digits_value(input@.subrange(start as int, end as int)) && i64::MIN
                <= int_digits_value(input@.subrange(start as int, end as int)) <= i64::MAX,
            None => !valid_int_digits(input@.subrange(start as int, end as int))
                || !(i64::MIN <= int_digits_value(input@.subrange(start as int, end as int))
                <= i64::MAX),
        },
{
    let ghost sub = input@.subrange(start as int, end as int);
    if start == end {
        return None;
    }
    if input[start] == 45 {
        let ghost mag = sub.drop_first();
        proof {
            assert(mag =~= input@.subrange(start + 1, end as int));
        }
        let m = parse_digits_u64(input, start + 1, end);
        match m {
            Some(n) => {
                proof {
                    lemma_valid_digits_zero_iff(mag);
                }
                if n == 0 {
                    return None;
                }
                if n <= 9223372036854775808u64 {
                    if n == 9223372036854775808u64 {
                        Some(i64::MIN)
                    } else {
                        Some(-(n as i64))
                    }
                } else {
                    None
                }
            },
            None => {
                proof {
                    if valid_int_digits(sub) {
                        assert(valid_nat_digits(mag));
                        assert(digits_value(mag) > u64::MAX);
                    }
                }
                None
            },
        }
    } else {
        let m = parse_digits_u64(input, start, end);
        proof {
            assert(sub =~= input@.subrange(start as int, end as int));
        }
        match m {
            Some(n) => {
                if n <= i64::MAX as u64 {
                    Some(n as i64)
                } else {
                    None
                }
            },
            None => {
                proof {
                    if valid_int_digits(sub) {
                        lemma_digits_value_nonneg(sub);
                    }
                }
                None
            },
        }
    }
}

/// Which error a failed decode reports; meaningful only where
/// `spec_decode` reads no term.
pub open spec fn spec_decode_err(s: Seq<u8>) -> DecodeError
    decreases s.len(), 1int,
{
    if s.len() == 0 {
        DecodeError::Truncated
    } else if s[0] == 105 {
        match find_byte(s.drop_first(), 101) {
            Some(_) => DecodeError::BadInteger,
            None => DecodeError::Truncated,
        }
    } else if is_digit(s[0]) {
        match find_byte(s, 58) {
            Some(_) => DecodeError::BadLengthPrefix,
            None => DecodeError::Truncated,
        }
    } else if s[0] == 108 {
        spec_decode_items_err(s.drop_first())
    } else if s[0] == 100 {
        spec_decode_entries_err(s.drop_first())
    } else {
        DecodeError::UnhandledValue
    }
}

/// Which error failed list-element decoding reports; meaningful only
/// where `spec_decode_items` reads no elements.
pub open spec fn spec_decode_items_err(s: Seq<u8>) -> DecodeError
    decreases s.len(), 2int,
{
    if s.len() == 0 {
        DecodeError::Unterminated
    } else if s[0] == 101 {
        DecodeError::Unterminated
    } else {
        match spec_decode(s) {
            Some(p) => if p.1.len() < s.len() {
                spec_decode_items_err(p.1)
            } else {
                DecodeError::Unterminated
            },
            None => spec_decode_err(s),
        }
    }
}

/// Which error failed dictionary-entry decoding reports; meaningful only
/// where `spec_decode_entries` reads no pairs.
pub open spec fn spec_decode_entries_err(s: Seq<u8>) -> DecodeError
    decreases s.len(), 2int,
{
    if s.len() == 0 {
        DecodeError::Unterminated
    } else if s[0] == 101 {
        DecodeError::Unterminated
    } else {
        match spec_decode(s) {
            Some(kp) => match kp.0 {
                SpecValue::ByteString(_) => if kp.1.len() < s.len() {
                    match spec_decode(kp.1) {
                        Some(vp) => if vp.1.len() < kp.1.len() {
                            spec_decode_entries_err(vp.1)
                        } else {
                            DecodeError::Unterminated
                        },
                        None => spec_decode_err(kp.1),
                    }
                } else {
                    DecodeError::Unterminated
                },
                _ => DecodeError::NonStringKey,
            },
            None => spec_decode_err(s),
        }
    }
}

/// Every decoded term is well formed: its integers fit `i64` and its
/// dictionaries, at every depth, have distinct keys — so the round-trip
/// laws apply to whatever the decoder returns.
pub proof fn lemma_spec_decode_wf(s: Seq<u8>)
    ensures
        match spec_decode(s) {
            Some(p) => wf_value(p.0) && p.1.len() < s.len(),
            None => true,
        },
    decreases s.len(), 1int,
{
    if s.len() == 0 {
    } else if s[0] == 105 {
        let body = s.drop_first();
        lemma_find_byte(body, 101);
        match find_byte(body, 101) {
            Some(j) => {
                let d = body.take(j);
                if valid_int_digits(d) && i64::MIN <= int_digits_value(d) <= i64::MAX {
                    assert(body.skip(j + 1).len() < s.len());
                }
            },
            None => {},
        }
    } else if is_digit(s[0]) {
        lemma_find_byte(s, 58);
        match find_byte(s, 58) {
            Some(j) => {
                let d = s.take(j);
                if valid_nat_digits(d) {
                    assert(all_digits(d));
                    lemma_digits_value_nonneg(d);
                    let n = digits_value(d);
                    let body = s.skip(j + 1);
                    if n <= body.len() {
                        assert(body.skip(n).len() < s.len());
                    }
                }
            },
            None => {},
        }
    } else if s[0] == 108 {
        lemma_spec_decode_items_wf(s.drop_first());
        match spec_decode_items(s.drop_first()) {
            Some(p) => {
                assert(p.1.drop_first().len() < s.len());
            },
            None => {},
        }
    } else if s[0] == 100 {
        lemma_spec_decode_entries_wf(s.drop_first());
        match spec_decode_entries(s.drop_first()) {
            Some(p) => {
                lemma_entries_from_pairs_wf(p.0);
                assert(p.1.drop_first().len() < s.len());
            },
            None => {},
        }
    }
}

/// Every decoded list element is well formed, and the remainder starts at
/// the terminator.
pub proof fn lemma_spec_decode_items_wf(s: Seq<u8>)
    ensures
        match spec_decode_items(s) {
            Some(p) => wf_items(p.0) && p.1.len() <= s.len() && p.1.len() >= 1 && p.1[0] == 101,
            None => true,
        },
    decreases s.len(), 2int,
{
    if s.len() == 0 {
    } else if s[0] == 101 {
    } else {
        lemma_spec_decode_wf(s);
        match spec_decode(s) {
            Some(p) => {
                if p.1.len() < s.len() {
                    lemma_spec_decode_items_wf(p.1);
                    match spec_decode_items(p.1) {
                        Some(q) => {
                            assert(wf_items(seq![p.0] + q.0)) by {
                                assert((seq![p.0] + q.0)[0] == p.0);
                                assert((seq![p.0] + q.0).drop_first() =~= q.0);
                            }
                        },
                        None => {},
                    }
                }
            },
            None => {},
        }
    }
}

/// Every decoded dictionary pair holds a well-formed value, and the
/// remainder starts at the terminator.
pub proof fn lemma_spec_decode_entries_wf(s: Seq<u8>)
    ensures
        match spec_decode_entries(s) {
            Some(p) => wf_entries(p.0) && p.1.len() <= s.len() && p.1.len() >= 1 && p.1[0] == 101,
            None => true,
        },
    decreases s.len(), 2int,
{
    if s.len() == 0 {
    } else if s[0] == 101 {
    } else {
        lemma_spec_decode_wf(s);
        match spec_decode(s) {
            Some(kp) => match kp.0 {
                SpecValue::ByteString(key) => if kp.1.len() < s.len() {
                    lemma_spec_decode_wf(kp.1);
                    match spec_decode(kp.1) {
                        Some(vp) => if vp.1.len() < kp.1.len() {
                            lemma_spec_decode_entries_wf(vp.1);
                            match spec_decode_entries(vp.1) {
                                Some(q) => {
                                    assert(wf_entries(seq![(key, vp.0)] + q.0)) by {
                                        assert((seq![(key, vp.0)] + q.0)[0] == (key, vp.0));
                                        assert((seq![(key, vp.0)] + q.0).drop_first() =~= q.0);
                                    }
                                },
                                None => {},
                            }
                        },
                        None => {},
                    }
                },
                _ => {},
            },
            None => {},
        }
    }
}

/// Prefix already-decoded list elements onto the outcome of decoding the
/// remaining ones.
pub open spec fn prepend_items(
    front: Seq<SpecValue>,
    r: Option<(Seq<SpecValue>, Seq<u8>)>,
) -> Option<(Seq<SpecValue>, Seq<u8>)> {
    match r {
        Some(t) => Some((front + t.0, t.1)),
        None => None,
    }
}

/// Prefix already-decoded dictionary pairs onto the outcome of decoding the
/// remaining ones.
pub open spec fn prepend_pairs(
    front: Seq<(Seq<u8>, SpecValue)>,
    r: Option<(Seq<(Seq<u8>, SpecValue)>, Seq<u8>)>,
) -> Option<(Seq<(Seq<u8>, SpecValue)>, Seq<u8>)> {
    match r {
        Some(t) => Some((front + t.0, t.1)),
        None => None,
    }
}

/// Appending one decoded element to the front is the same as prefixing it
/// to the tail outcome.
pub proof fn lemma_prepend_items_assoc(
    front: Seq<SpecValue>,
    v: SpecValue,
    r: Option<(Seq<SpecValue>, Seq<u8>)>,
)
    ensures
        prepend_items(front, prepend_items(seq![v], r)) == prepend_items(front.push(v), r),
{
    match r {
        Some(t) => {
            assert(front + (seq![v] + t.0) =~= front.push(v) + t.0);
        },
        None => {},
    }
}

/// Appending one decoded pair to the front is the same as prefixing it to
/// the tail outcome.
pub proof fn lemma_prepend_pairs_assoc(
    front: Seq<(Seq<u8>, SpecValue)>,
    p: (Seq<u8>, SpecValue),
    r: Option<(Seq<(Seq<u8>, SpecValue)>, Seq<u8>)>,
)
    ensures
        prepend_pairs(front, prepend_pairs(seq![p], r)) == prepend_pairs(front.push(p), r),
{
    match r {
        Some(t) => {
            assert(front + (seq![p] + t.0) =~= front.push(p) + t.0);
        },
        None => {},
    }
}

/// The model of a vector with one more element.
pub proof fn lemma_view_items_push(vs: Seq<BencodeValue>, v: BencodeValue)
    ensures
        view_items(vs.push(v)) == view_items(vs).push(v.view()),
{
    lemma_view_items(vs.push(v));
    lemma_view_items(vs);
    assert(view_items(vs.push(v)) =~= view_items(vs).push(v.view()));
}

/// Inserting a key that is present replaces its entry in place.
pub proof fn lemma_dict_insert_found(
    ps: Seq<(Seq<u8>, SpecValue)>,
    k: Seq<u8>,
    v: SpecValue,
    idx: int,
)
    requires
        0 <= idx < ps.len(),
        ps[idx].0 == k,
        forall|t: int| 0 <= t < idx ==> ps[t].0 != k,
    ensures
        dict_insert(ps, k, v) == ps.update(idx, (k, v)),
    decreases idx,
{
    if idx == 0 {
        assert(seq![(k, v)] + ps.drop_first() =~= ps.update(0, (k, v)));
    } else {
        assert(ps.drop_first()[idx - 1].0 == k);
        assert forall|t: int| 0 <= t < idx - 1 implies ps.drop_first()[t].0 != k by {
            assert(ps.drop_first()[t] == ps[t + 1]);
        }
        lemma_dict_insert_found(ps.drop_first(), k, v, idx - 1);
        assert(seq![ps[0]] + ps.drop_first().update(idx - 1, (k, v)) =~= ps.update(idx, (k, v)));
    }
}

/// Inserting a key that is absent appends its entry.
pub proof fn lemma_dict_insert_absent(ps: Seq<(Seq<u8>, SpecValue)>, k: Seq<u8>, v: SpecValue)
    requires
        forall|t: int| 0 <= t < ps.len() ==> ps[t].0 != k,
    ensures
        dict_insert(ps, k, v) == ps.push((k, v)),
    decreases ps.len(),
{
    if ps.len() == 0 {
        assert(seq![(k, v)] =~= ps.push((k, v)));
    } else {
        assert forall|t: int| 0 <= t < ps.drop_first().len() implies ps.drop_first()[t].0 != k by {
            assert(ps.drop_first()[t] == ps[t + 1]);
        }
        lemma_dict_insert_absent(ps.drop_first(), k, v);
        assert(seq![ps[0]] + ps.drop_first().push((k, v)) =~= ps.push((k, v)));
    }
}

/// Whether two byte vectors hold the same bytes.
pub(crate) fn key_eq(a: &Vec<u8>, b: &Vec<u8>) -> (r: bool)
    ensures
        r <==> a@ == b@,
{
    if a.len() != b.len() {
        assert(a@ != b@) by {
            if a@ == b@ {
                assert(a@.len() == b@.len());
            }
        }
        return false;
    }
    let mut i: usize = 0;
    while i < a.len()
        invariant
            0 <= i <= a.len() == b.len(),
            forall|t: int| 0 <= t < i ==> a@[t] == b@[t],
        decreases a.len() - i,
    {
        if a[i] != b[i] {
            return false;
        }
        i = i + 1;
    }
    assert(a@ =~= b@);
    true
}

/// Add one decoded key/value pair to insertion-ordered dictionary entries:
/// replace the entry of an existing key in place, append a new key.
fn entries_insert(entries: &mut Vec<(Vec<u8>, BencodeValue)>, k: Vec<u8>, v: BencodeValue)
    ensures
        view_pairs(final(entries)@) == dict_insert(view_pairs(old(entries)@), k@, v@),
{
    proof {
        lemma_view_pairs(entries@);
    }
    let mut idx: usize = 0;
    while idx < entries.len()
        invariant
            entries@ == old(entries)@,
            0 <= idx <= entries@.len(),
            forall|t: int| 0 <= t < idx ==> view_pairs(entries@)[t].0 != k@,
            view_pairs(entries@).len() == entries@.len(),
            forall|i: int| 0 <= i < entries@.len() ==> view_pairs(entries@)[i] == (
                entries@[i].0@,
                entries@[i].1.view(),
            ),
        decreases entries@.len() - idx,
    {
        if key_eq(&entries[idx].0, &k) {
            let ghost before = entries@;
            proof {
                lemma_dict_insert_found(view_pairs(before), k@, v@, idx as int);
            }
            entries[idx] = (k, v);
            proof {
                lemma_view_pairs(entries@);
                assert(entries@ =~= before.update(idx as int, (k, v)));
                assert(view_pairs(entries@) =~= view_pairs(before).update(idx as int, (k@, v@)));
            }
            return ;
        }
        idx = idx + 1;
    }
    let ghost before = entries@;
    proof {
        lemma_dict_insert_absent(view_pairs(before), k@, v@);
    }
    entries.push((k, v));
    proof {
        lemma_view_pairs(entries@);
        assert(entries@ =~= before.push((k, v)));
        assert(view_pairs(entries@) =~= view_pairs(before).push((k@, v@)));
    }
}

/// Decode the bencode term starting at `pos`, returning its value and the
/// position just past it. Exactly the inputs on which `spec_decode` reads
/// a term succeed; every failure reports the error `spec_decode_err`
/// assigns to the input.
#[verifier::loop_isolation(false)]
#[verifier::rlimit(100)]
pub fn decode_term(input: &[u8], pos: usize) -> (r: Result<(BencodeValue, usize), DecodeError>)
    requires
        pos <= input@.len(),
    ensures
        match r {
            Ok(p) => pos < p.1 <= input@.len() && spec_decode(input@.skip(pos as int)) == Some(
                (p.0@, input@.skip(p.1 as int)),
            ),
            Err(e) => spec_decode(input@.skip(pos as int)) is None && e == spec_decode_err(
                input@.skip(pos as int),
            ),
        },
    decreases input@.len() - pos,
{
    let ghost s = input@.skip(pos as int);
    let n = input.len();
    if pos >= n {
        return Err(DecodeError::Truncated);
    }
    let b = input[pos];
    assert(s[0] == b);
    if b == 105 {
        // i<digits>e
        let ghost body = s.drop_first();
        proof {
            assert(body =~= input@.skip(pos + 1));
            lemma_find_byte(body, 101);
        }
        let mut j = pos + 1;
        while j < n && input[j] != 101
            invariant
                pos + 1 <= j <= n == input@.len(),
                forall|t: int| pos + 1 <= t < j ==> input@[t] != 101,
            decreases n - j,
        {
            j = j + 1;
        }
        if j == n {
            proof {
                if let Some(i) = find_byte(body, 101) {
                    assert(body[i] == input@[pos + 1 + i]);
                }
            }
            return Err(DecodeError::Truncated);
        }
        proof {
            let jj = j - pos - 1;
            assert(body[jj] == input@[j as int]);
            match find_byte(body, 101) {
                Some(i) => {
                    if i < jj {
                        assert(body[i] == input@[pos + 1 + i]);
                    }
                    if i > jj {
                        assert(body[jj] != 101);
                    }
                    assert(i == jj);
                },
                None => {
                    assert(body[jj] == 101);
                },
            }
            assert(find_byte(body, 101) == Some(j - pos - 1));
            assert(body.take(j - pos - 1) =~= input@.subrange(pos + 1, j as int));
        }
        match parse_digits_i64(input, pos + 1, j) {
            Some(x) => {
                proof {
                    assert(body.skip(j - pos - 1 + 1) =~= input@.skip(j + 1));
                }
                Ok((BencodeValue::Integer(x), j + 1))
            },
            None => Err(DecodeError::BadInteger),
        }
    } else if 48 <= b && b <= 57 {
        // <digits>:<bytes>
        proof {
            lemma_find_byte(s, 58);
        }
        let mut j = pos;
        while j < n && input[j] != 58
            invariant
                pos <= j <= n == input@.len(),
                forall|t: int| pos <= t < j ==> input@[t] != 58,
            decreases n - j,
        {
            j = j + 1;
        }
        if j == n {
            proof {
                if let Some(i) = find_byte(s, 58) {
                    assert(s[i] == input@[pos + i]);
                }
            }
            return Err(DecodeError::Truncated);
        }
        proof {
            let jj = j - pos;
            assert(s[jj] == input@[j as int]);
            match find_byte(s, 58) {
                Some(i) => {
                    if i < jj {
                        assert(s[i] == input@[pos + i]);
                    }
                    if i > jj {
                        assert(s[jj] != 58);
                    }
                    assert(i == jj);
                },
                None => {
                    assert(s[jj] == 58);
                },
            }
            assert(find_byte(s, 58) == Some(j - pos));
            assert(s.take(j - pos) =~= input@.subrange(pos as int, j as int));
        }
        let ghost strbody = s.skip(j - pos + 1);
        proof {
            assert(strbody =~= input@.skip(j + 1));
        }
        match parse_digits_u64(input, pos, j) {
            Some(len64) => {
                let remaining = n - (j + 1);
                if len64 > remaining as u64 {
                    return Err(DecodeError::BadLengthPrefix);
                }
                let len = len64 as usize;
                let mut content: Vec<u8> = Vec::new();
                let mut t: usize = 0;
                while t < len
                    invariant
                        0 <= t <= len,
                        j + 1 + len <= n == input@.len(),
                        content@ =~= input@.subrange(j + 1, j + 1 + t),
                    decreases len - t,
                {
                    content.push(input[j + 1 + t]);
                    proof {
                        assert(content@ =~= input@.subrange(j + 1, j + 1 + t + 1));
                    }
                    t = t + 1;
                }
                proof {
                    assert(strbody.take(len as int) =~= input@.subrange(j + 1, j + 1 + len));
                    assert(strbody.skip(len as int) =~= input@.skip(j + 1 + len));
                }
                Ok((BencodeValue::ByteString(content), j + 1 + len))
            },
            None => Err(DecodeError::BadLengthPrefix),
        }
    } else if b == 108 {
        // l<terms>e
        let ghost body = s.drop_first();
        proof {
            assert(body =~= input@.skip(pos + 1));
        }
        let mut items: Vec<BencodeValue> = Vec::new();
        let mut cur = pos + 1;
        loop
            invariant
                pos + 1 <= cur <= n == input@.len(),
                pos < n,
                input@[pos as int] == 108,
                s == input@.skip(pos as int),
                spec_decode_items(input@.skip(pos + 1)) == prepend_items(
                    view_items(items@),
                    spec_decode_items(input@.skip(cur as int)),
                ),
                spec_decode_items(input@.skip(cur as int)) is None ==> spec_decode_items_err(
                    input@.skip(pos + 1),
                ) == spec_decode_items_err(input@.skip(cur as int)),
            decreases input@.len() - cur,
        {
            let ghost tail = input@.skip(cur as int);
            if cur >= n {
                assert(tail.len() == 0);
                return Err(DecodeError::Unterminated);
            }
            assert(tail[0] == input@[cur as int]);
            if input[cur] == 101 {
                proof {
                    assert(spec_decode_items(tail) == Some((Seq::<SpecValue>::empty(), tail)));
                    assert(view_items(items@) + Seq::<SpecValue>::empty() =~= view_items(items@));
                    assert(s.drop_first() =~= input@.skip(pos + 1));
                    assert(tail.drop_first() =~= input@.skip(cur + 1));
                }
                return Ok((BencodeValue::List(items), cur + 1));
            }
            match decode_term(input, cur) {
                Ok(p) => {
                    let (v, end) = p;
                    proof {
                        assert(input@.skip(end as int).len() < tail.len());
                        assert(spec_decode_items(tail) == prepend_items(
                            seq![v@],
                            spec_decode_items(input@.skip(end as int)),
                        ));
                        lemma_prepend_items_assoc(
                            view_items(items@),
                            v@,
                            spec_decode_items(input@.skip(end as int)),
                        );
                        lemma_view_items_push(items@, v);
                    }
                    items.push(v);
                    cur = end;
                },
                Err(e) => {
                    assert(spec_decode_items(tail) is None);
                    return Err(e);
                },
            }
        }
    } else if b == 100 {
        // d<key value pairs>e
        let ghost body = s.drop_first();
        proof {
            assert(body =~= input@.skip(pos + 1));
        }
        let mut entries: Vec<(Vec<u8>, BencodeValue)> = Vec::new();
        let ghost mut raw = Seq::<(Seq<u8>, SpecValue)>::empty();
        let mut cur = pos + 1;
        loop
            invariant
                pos + 1 <= cur <= n == input@.len(),
                pos < n,
                input@[pos as int] == 100,
                s == input@.skip(pos as int),
                view_pairs(entries@) == entries_from_pairs(raw),
                spec_decode_entries(input@.skip(pos + 1)) == prepend_pairs(
                    raw,
                    spec_decode_entries(input@.skip(cur as int)),
                ),
                spec_decode_entries(input@.skip(cur as int)) is None ==> spec_decode_entries_err(
                    input@.skip(pos + 1),
                ) == spec_decode_entries_err(input@.skip(cur as int)),
            decreases input@.len() - cur,
        {
            let ghost tail = input@.skip(cur as int);
            if cur >= n {
                assert(tail.len() == 0);
                return Err(DecodeError::Unterminated);
            }
            assert(tail[0] == input@[cur as int]);
            if input[cur] == 101 {
                proof {
                    assert(spec_decode_entries(tail) == Some(
                        (Seq::<(Seq<u8>, SpecValue)>::empty(), tail),
                    ));
                    assert(raw + Seq::<(Seq<u8>, SpecValue)>::empty() =~= raw);
                    assert(s.drop_first() =~= input@.skip(pos + 1));
                    assert(tail.drop_first() =~= input@.skip(cur + 1));
                }
                return Ok((BencodeValue::Dictionary(entries), cur + 1));
            }
            let kres = decode_term(input, cur);
            match kres {
                Ok(kp) => {
                    let (kval, kend) = kp;
                    match kval {
                        BencodeValue::ByteString(kbytes) => {
                            let ghost krest = input@.skip(kend as int);
                            assert(krest.len() < tail.len());
                            match decode_term(input, kend) {
                                Ok(vp) => {
                                    let (vval, vend) = vp;
                                    let ghost vrest = input@.skip(vend as int);
                                    proof {
                                        assert(vrest.len() < krest.len());
                                        assert(spec_decode_entries(tail) == prepend_pairs(
                                            seq![(kbytes@, vval@)],
                                            spec_decode_entries(vrest),
                                        ));
                                        lemma_prepend_pairs_assoc(
                                            raw,
                                            (kbytes@, vval@),
                                            spec_decode_entries(vrest),
                                        );
                                        assert(raw.push((kbytes@, vval@)).drop_last() =~= raw);
                                        assert(entries_from_pairs(raw.push((kbytes@, vval@)))
                                            == dict_insert(
                                            entries_from_pairs(raw),
                                            kbytes@,
                                            vval@,
                                        ));
                                    }
                                    entries_insert(&mut entries, kbytes, vval);
                                    proof {
                                        raw = raw.push((kbytes@, vval@));
                                    }
                                    cur = vend;
                                },
                                Err(e) => {
                                    assert(spec_decode_entries(tail) is None);
                                    return Err(e);
                                },
                            }
                        },
                        _ => {
                            proof {
                                match kval@ {
                                    SpecValue::ByteString(_) => {
                                        assert(false);
                                    },
                                    _ => {},
                                }
                                assert(spec_decode_entries(tail) is None);
                            }
                            return Err(DecodeError::NonStringKey);
                        },
                    }
                },
                Err(e) => {
                    assert(spec_decode_entries(tail) is None);
                    return Err(e);
                },
            }
        }
    } else {
        Err(DecodeError::UnhandledValue)
    }
}

/// Decode one bencode term from the front of `input`: the parsed value and
/// the number of bytes consumed; what remains is unread input. Succeeds on
/// exactly the inputs on which `spec_decode` reads a term, with a
/// well-formed result; every failure reports the error `spec_decode_err`
/// assigns to the input.
pub fn decode_bencoded_value(input: &[u8]) -> (r: Result<(BencodeValue, usize), DecodeError>)
    ensures
        match r {
            Ok(p) => 0 < p.1 <= input@.len() && spec_decode(input@) == Some(
                (p.0@, input@.skip(p.1 as int)),
            ) && wf_value(p.0@),
            Err(e) => spec_decode(input@) is None && e == spec_decode_err(input@),
        },
{
    proof {
        assert(input@.skip(0) =~= input@);
        lemma_spec_decode_wf(input@);
    }
    decode_term(input, 0)
}

/// `canon_items` maps each element to its canonical form, keeping length
/// and order.
pub broadcast proof fn lemma_canon_items(items: Seq<SpecValue>)
    ensures
        (#[trigger] canon_items(items)).len() == items.len(),
        forall|i: int| 0 <= i < items.len() ==> #[trigger] canon_items(items)[i] == canon(
            items[i],
        ),
    decreases items.len(),
{
    if items.len() > 0 {
        lemma_canon_items(items.drop_first());
        assert forall|i: int| 0 <= i < items.len() implies #[trigger] canon_items(items)[i]
            == canon(items[i]) by {
            if i > 0 {
                assert(items.drop_first()[i - 1] == items[i]);
            }
        }
    }
}

/// `canon_entries` keeps every key and canonicalizes every value, keeping
/// length and order.
pub broadcast proof fn lemma_canon_entries(ps: Seq<(Seq<u8>, SpecValue)>)
    ensures
        (#[trigger] canon_entries(ps)).len() == ps.len(),
        forall|i: int| 0 <= i < ps.len() ==> #[trigger] canon_entries(ps)[i] == (
            ps[i].0,
            canon(ps[i].1),
        ),
    decreases ps.len(),
{
    if ps.len() > 0 {
        lemma_canon_entries(ps.drop_first());
        assert forall|i: int| 0 <= i < ps.len() implies #[trigger] canon_entries(ps)[i] == (
            ps[i].0,
            canon(ps[i].1),
        ) by {
            if i > 0 {
                assert(ps.drop_first()[i - 1] == ps[i]);
            }
        }
    }
}

/// Encoding a concatenation of list elements concatenates the encodings.
pub proof fn lemma_raw_encode_items_concat(s1: Seq<SpecValue>, s2: Seq<SpecValue>)
    ensures
        raw_encode_items(s1 + s2) == raw_encode_items(s1) + raw_encode_items(s2),
    decreases s1.len(),
{
    if s1.len() == 0 {
        assert(s1 + s2 =~= s2);
        assert(raw_encode_items(s1) + raw_encode_items(s2) =~= raw_encode_items(s2));
    } else {
        assert((s1 + s2).drop_first() =~= s1.drop_first() + s2);
        assert((s1 + s2)[0] == s1[0]);
        lemma_raw_encode_items_concat(s1.drop_first(), s2);
        assert(raw_encode(s1[0]) + (raw_encode_items(s1.drop_first()) + raw_encode_items(s2))
            =~= (raw_encode(s1[0]) + raw_encode_items(s1.drop_first())) + raw_encode_items(s2));
    }
}

/// The encoding of one dictionary entry: its key as a byte string, then
/// its value.
pub open spec fn raw_encode_entry(p: (Seq<u8>, SpecValue)) -> Seq<u8> {
    nat_digits(p.0.len()) + seq![58u8] + p.0 + raw_encode(p.1)
}

/// Encoding a concatenation of dictionary entries concatenates the
/// encodings.
pub proof fn lemma_raw_encode_entries_concat(s1: Seq<(Seq<u8>, SpecValue)>, s2: Seq<
    (Seq<u8>, SpecValue),
>)
    ensures
        raw_encode_entries(s1 + s2) == raw_encode_entries(s1) + raw_encode_entries(s2),
    decreases s1.len(),
{
    if s1.len() == 0 {
        assert(s1 + s2 =~= s2);
        assert(raw_encode_entries(s1) + raw_encode_entries(s2) =~= raw_encode_entries(s2));
    } else {
        assert((s1 + s2).drop_first() =~= s1.drop_first() + s2);
        assert((s1 + s2)[0] == s1[0]);
        lemma_raw_encode_entries_concat(s1.drop_first(), s2);
        assert(raw_encode_entries(s1) == raw_encode_entry(s1[0]) + raw_encode_entries(
            s1.drop_first(),
        ));
        assert(raw_encode_entries(s1 + s2) == raw_encode_entry(s1[0]) + (raw_encode_entries(
            s1.drop_first(),
        ) + raw_encode_entries(s2)));
        assert(raw_encode_entry(s1[0]) + (raw_encode_entries(s1.drop_first())
            + raw_encode_entries(s2)) =~= (raw_encode_entry(s1[0]) + raw_encode_entries(
            s1.drop_first(),
        )) + raw_encode_entries(s2));
    }
}

/// Append the decimal digits of `n`, most significant first.
pub(crate) fn push_nat_digits(n: u64, out: &mut Vec<u8>)
    ensures
        final(out)@ == old(out)@ + nat_digits(n as nat),
    decreases n,
{
    if n < 10 {
        out.push(48 + n as u8);
        assert(final(out)@ =~= old(out)@ + nat_digits(n as nat));
    } else {
        push_nat_digits(n / 10, out);
        out.push(48 + (n % 10) as u8);
        assert(final(out)@ =~= old(out)@ + (nat_digits(n as nat / 10) + seq![
            (48 + n as nat % 10) as u8,
        ]));
    }
}

/// Append the minimal decimal form of `i`: digits, preceded by `-` when
/// negative.
fn push_int_digits(i: i64, out: &mut Vec<u8>)
    ensures
        final(out)@ == old(out)@ + int_digits(i as int),
{
    if i >= 0 {
        push_nat_digits(i as u64, out);
    } else {
        out.push(45);
        let m: u64 = ((-(i + 1)) as u64) + 1;
        assert(m as nat == (-(i as int)) as nat);
        push_nat_digits(m, out);
        assert(final(out)@ =~= old(out)@ + (seq![45u8] + nat_digits((-(i as int)) as nat)));
    }
}

/// Whether `a`'s bytes are lexicographically at or before `b`'s.
fn lex_le_exec(a: &Vec<u8>, b: &Vec<u8>) -> (r: bool)
    ensures
        r == lex_le(a@, b@),
{
    let mut i: usize = 0;
    let alen = a.len();
    let blen = b.len();
    proof {
        assert(a@.skip(0) =~= a@);
        assert(b@.skip(0) =~= b@);
    }
    while i < alen && i < blen && a[i] == b[i]
        invariant
            0 <= i <= alen == a@.len(),
            i <= blen == b@.len(),
            lex_le(a@, b@) == lex_le(a@.skip(i as int), b@.skip(i as int)),
            lex_le(b@, a@) == lex_le(b@.skip(i as int), a@.skip(i as int)),
        decreases alen - i,
    {
        proof {
            assert(a@.skip(i as int)[0] == a@[i as int]);
            assert(b@.skip(i as int)[0] == b@[i as int]);
            assert(a@.skip(i as int).drop_first() =~= a@.skip(i + 1));
            assert(b@.skip(i as int).drop_first() =~= b@.skip(i + 1));
        }
        i = i + 1;
    }
    if i == alen {
        assert(a@.skip(i as int).len() == 0);
        true
    } else if i == blen {
        assert(b@.skip(i as int).len() == 0 && a@.skip(i as int).len() > 0);
        false
    } else {
        assert(a@.skip(i as int)[0] == a@[i as int]);
        assert(b@.skip(i as int)[0] == b@[i as int]);
        a[i] < b[i]
    }
}

/// Inserting at the first position whose key is at or past the new key is
/// sorted insertion.
pub proof fn lemma_insert_entry_sorted_at(
    ps: Seq<(Seq<u8>, SpecValue)>,
    p: (Seq<u8>, SpecValue),
    at: int,
)
    requires
        0 <= at <= ps.len(),
        forall|t: int| 0 <= t < at ==> !lex_le(p.0, #[trigger] ps[t].0),
        at < ps.len() ==> lex_le(p.0, ps[at].0),
    ensures
        insert_entry_sorted(ps, p) == ps.insert(at, p),
    decreases ps.len(),
{
    if ps.len() == 0 {
        assert(seq![p] =~= ps.insert(0, p));
    } else if lex_le(p.0, ps[0].0) {
        assert(at == 0);
        assert(seq![p] + ps =~= ps.insert(0, p));
    } else {
        assert(at > 0);
        assert forall|t: int| 0 <= t < at - 1 implies !lex_le(p.0, #[trigger] ps.drop_first()[t].0) by {
            assert(ps.drop_first()[t] == ps[t + 1]);
        }
        if at - 1 < ps.drop_first().len() {
            assert(ps.drop_first()[at - 1] == ps[at]);
        }
        lemma_insert_entry_sorted_at(ps.drop_first(), p, at - 1);
        assert(seq![ps[0]] + ps.drop_first().insert(at - 1, p) =~= ps.insert(at, p));
    }
}

/// Sorted insertion looks only at keys, so it commutes with
/// canonicalizing entry values.
pub proof fn lemma_insert_canon_commute(ps: Seq<(Seq<u8>, SpecValue)>, p: (Seq<u8>, SpecValue))
    ensures
        insert_entry_sorted(canon_entries(ps), (p.0, canon(p.1))) == canon_entries(
            insert_entry_sorted(ps, p),
        ),
    decreases ps.len(),
{
    lemma_canon_entries(ps);
    if ps.len() == 0 {
        assert(canon_entries(seq![p])[0] == (p.0, canon(p.1)));
        assert(insert_entry_sorted(canon_entries(ps), (p.0, canon(p.1))) =~= canon_entries(
            seq![p],
        )) by {
            lemma_canon_entries(seq![p]);
        }
    } else if lex_le(p.0, ps[0].0) {
        assert(canon_entries(ps)[0].0 == ps[0].0);
        let lhs = seq![(p.0, canon(p.1))] + canon_entries(ps);
        let rhs = canon_entries(seq![p] + ps);
        lemma_canon_entries(seq![p] + ps);
        assert(lhs =~= rhs) by {
            assert forall|t: int| 0 <= t < rhs.len() implies lhs[t] == rhs[t] by {
                assert((seq![p] + ps)[t] == if t == 0 {
                    p
                } else {
                    ps[t - 1]
                });
            }
        }
    } else {
        assert(canon_entries(ps)[0].0 == ps[0].0);
        assert(canon_entries(ps).drop_first() =~= canon_entries(ps.drop_first())) by {
            lemma_canon_entries(ps.drop_first());
            assert forall|t: int|
                0 <= t < ps.drop_first().len() implies canon_entries(ps).drop_first()[t]
                == canon_entries(ps.drop_first())[t] by {
                assert(ps.drop_first()[t] == ps[t + 1]);
            }
        }
        lemma_insert_canon_commute(ps.drop_first(), p);
        let inner = insert_entry_sorted(ps.drop_first(), p);
        let lhs = seq![canon_entries(ps)[0]] + canon_entries(inner);
        let rhs = canon_entries(seq![ps[0]] + inner);
        lemma_canon_entries(inner);
        lemma_canon_entries(seq![ps[0]] + inner);
        assert(lhs =~= rhs) by {
            assert forall|t: int| 0 <= t < rhs.len() implies lhs[t] == rhs[t] by {
                assert((seq![ps[0]] + inner)[t] == if t == 0 {
                    ps[0]
                } else {
                    inner[t - 1]
                });
            }
        }
    }
}

/// Sorting by key commutes with canonicalizing entry values.
pub proof fn lemma_sort_canon_commute(ps: Seq<(Seq<u8>, SpecValue)>)
    ensures
        sort_entries(canon_entries(ps)) == canon_entries(sort_entries(ps)),
    decreases ps.len(),
{
    lemma_canon_entries(ps);
    if ps.len() == 0 {
        assert(canon_entries(sort_entries(ps)) =~= Seq::<(Seq<u8>, SpecValue)>::empty());
    } else {
        assert(canon_entries(ps).drop_last() =~= canon_entries(ps.drop_last())) by {
            lemma_canon_entries(ps.drop_last());
            assert forall|t: int|
                0 <= t < ps.drop_last().len() implies canon_entries(ps).drop_last()[t]
                == canon_entries(ps.drop_last())[t] by {
                assert(ps.drop_last()[t] == ps[t]);
            }
        }
        assert(canon_entries(ps).last() == (ps.last().0, canon(ps.last().1)));
        lemma_sort_canon_commute(ps.drop_last());
        lemma_insert_canon_commute(sort_entries(ps.drop_last()), ps.last());
    }
}

/// The entries of `pv` selected by the positions in `order`, in that
/// order.
pub open spec fn sel_pairs(pv: Seq<(Seq<u8>, SpecValue)>, order: Seq<usize>) -> Seq<
    (Seq<u8>, SpecValue),
> {
    Seq::new(order.len(), |t: int| pv[order[t] as int])
}

/// Append `src`'s bytes.
fn push_bytes(src: &Vec<u8>, out: &mut Vec<u8>)
    ensures
        final(out)@ == old(out)@ + src@,
{
    let mut t: usize = 0;
    while t < src.len()
        invariant
            0 <= t <= src@.len(),
            out@ == old(out)@ + src@.take(t as int),
        decreases src@.len() - t,
    {
        out.push(src[t]);
        proof {
            assert(old(out)@ + src@.take(t as int) + seq![src@[t as int]] =~= old(out)@
                + src@.take(t + 1));
        }
        t = t + 1;
    }
    assert(src@.take(src@.len() as int) =~= src@);
    proof {
        assert(out@ + Seq::<u8>::empty() =~= out@);
    }
}

/// Append the byte-string encoding of `src`: its length in decimal, a
/// colon, then its bytes.
fn push_string_encoding(src: &Vec<u8>, out: &mut Vec<u8>)
    ensures
        final(out)@ == old(out)@ + nat_digits(src@.len()) + seq![58u8] + src@,
{
    push_nat_digits(src.len() as u64, out);
    out.push(58);
    push_bytes(src, out);
    assert(final(out)@ =~= old(out)@ + nat_digits(src@.len()) + seq![58u8] + src@);
}

/// Append the canonical bencoding of `v`.
#[verifier::loop_isolation(false)]
#[verifier::rlimit(60)]
fn encode_into(v: &BencodeValue, out: &mut Vec<u8>)
    ensures
        final(out)@ == old(out)@ + spec_encode(v@),
    decreases v,
{
    match v {
        BencodeValue::Integer(i) => {
            out.push(105);
            push_int_digits(*i, out);
            out.push(101);
            assert(final(out)@ =~= old(out)@ + (seq![105u8] + int_digits(*i as int) + seq![
                101u8,
            ]));
        },
        BencodeValue::ByteString(s) => {
            push_string_encoding(s, out);
            assert(final(out)@ =~= old(out)@ + (nat_digits(s@.len()) + seq![58u8] + s@));
        },
        BencodeValue::List(items) => {
            let ghost iv = view_items(items@);
            proof {
                lemma_view_items(items@);
                lemma_canon_items(iv);
            }
            out.push(108);
            let mut t: usize = 0;
            proof {
                assert(canon_items(iv).take(0) =~= Seq::<SpecValue>::empty());
                assert(out@ =~= old(out)@ + seq![108u8] + raw_encode_items(
                    canon_items(iv).take(0),
                ));
            }
            while t < items.len()
                invariant
                    0 <= t <= items@.len(),
                    out@ == old(out)@ + seq![108u8] + raw_encode_items(
                        canon_items(iv).take(t as int),
                    ),
                decreases items@.len() - t,
            {
                encode_into(&items[t], out);
                proof {
                    assert(canon_items(iv).take(t + 1) =~= canon_items(iv).take(t as int)
                        + seq![canon(iv[t as int])]);
                    lemma_raw_encode_items_concat(
                        canon_items(iv).take(t as int),
                        seq![canon(iv[t as int])],
                    );
                    assert(raw_encode_items(seq![canon(iv[t as int])]) =~= raw_encode(
                        canon(iv[t as int]),
                    ) + raw_encode_items(Seq::<SpecValue>::empty())) by {
                        assert(seq![canon(iv[t as int])].drop_first() =~= Seq::<
                            SpecValue,
                        >::empty());
                    }
                    assert(raw_encode(canon(iv[t as int])) + Seq::<u8>::empty() =~= raw_encode(
                        canon(iv[t as int]),
                    ));
                    assert(out@ =~= old(out)@ + seq![108u8] + raw_encode_items(
                        canon_items(iv).take(t + 1),
                    ));
                }
                t = t + 1;
            }
            out.push(101);
            proof {
                assert(canon_items(iv).take(items@.len() as int) =~= canon_items(iv));
                assert(final(out)@ =~= old(out)@ + (seq![108u8] + raw_encode_items(
                    canon_items(iv),
                ) + seq![101u8]));
            }
        },
        BencodeValue::Dictionary(entries) => {
            let ghost pv = view_pairs(entries@);
            proof {
                lemma_view_pairs(entries@);
            }
            let mut order: Vec<usize> = Vec::new();
            let mut i: usize = 0;
            proof {
                assert(pv.take(0) =~= Seq::<(Seq<u8>, SpecValue)>::empty());
                assert(sel_pairs(pv, order@) =~= sort_entries(pv.take(0)));
            }
            while i < entries.len()
                invariant
                    0 <= i <= entries@.len(),
                    order@.len() == i,
                    forall|t: int| 0 <= t < i ==> #[trigger] order@[t] < i,
                    sel_pairs(pv, order@) == sort_entries(pv.take(i as int)),
                decreases entries@.len() - i,
            {
                let ghost sorted = sel_pairs(pv, order@);
                let mut p: usize = 0;
                while p < order.len() && !lex_le_exec(&entries[i].0, &entries[order[p]].0)
                    invariant
                        0 <= p <= order@.len(),
                        forall|t: int| 0 <= t < p ==> !lex_le(pv[i as int].0, #[trigger] sorted[t].0),
                    decreases order@.len() - p,
                {
                    proof {
                        assert(sorted[p as int].0 == pv[order@[p as int] as int].0);
                    }
                    p = p + 1;
                }
                proof {
                    if p < order@.len() {
                        assert(sorted[p as int].0 == pv[order@[p as int] as int].0);
                        assert(lex_le(pv[i as int].0, sorted[p as int].0));
                    }
                    lemma_insert_entry_sorted_at(sorted, pv[i as int], p as int);
                }
                order.insert(p, i);
                proof {
                    assert(sel_pairs(pv, order@) =~= sorted.insert(p as int, pv[i as int]));
                    assert(pv.take(i + 1).drop_last() =~= pv.take(i as int));
                    assert(pv.take(i + 1).last() == pv[i as int]);
                }
                i = i + 1;
            }
            let ghost sorted = sel_pairs(pv, order@);
            proof {
                assert(pv.take(entries@.len() as int) =~= pv);
                assert(sorted == sort_entries(pv));
                lemma_canon_entries(sorted);
            }
            out.push(100);
            let mut t: usize = 0;
            proof {
                assert(canon_entries(sorted).take(0) =~= Seq::<(Seq<u8>, SpecValue)>::empty());
                assert(out@ =~= old(out)@ + seq![100u8] + raw_encode_entries(
                    canon_entries(sorted).take(0),
                ));
            }
            while t < order.len()
                invariant
                    0 <= t <= order@.len() == sorted.len(),
                    forall|u: int| 0 <= u < order@.len() ==> #[trigger] order@[u]
                        < entries@.len(),
                    sorted == sel_pairs(pv, order@),
                    out@ == old(out)@ + seq![100u8] + raw_encode_entries(
                        canon_entries(sorted).take(t as int),
                    ),
                decreases order@.len() - t,
            {
                let idx = order[t];
                proof {
                    assert(sorted[t as int] == pv[idx as int]);
                    assert(pv[idx as int] == (entries@[idx as int].0@, entries@[idx as int].1.view()));
                }
                push_string_encoding(&entries[idx].0, out);
                encode_into(&entries[idx].1, out);
                proof {
                    assert(canon_entries(sorted).take(t + 1) =~= canon_entries(sorted).take(
                        t as int,
                    ) + seq![canon_entries(sorted)[t as int]]);
                    lemma_raw_encode_entries_concat(
                        canon_entries(sorted).take(t as int),
                        seq![canon_entries(sorted)[t as int]],
                    );
                    assert(raw_encode_entries(seq![canon_entries(sorted)[t as int]])
                        =~= raw_encode_entry(canon_entries(sorted)[t as int])) by {
                        assert(seq![canon_entries(sorted)[t as int]].drop_first() =~= Seq::<
                            (Seq<u8>, SpecValue),
                        >::empty());
                        assert(raw_encode_entry(canon_entries(sorted)[t as int]) + Seq::<
                            u8,
                        >::empty() =~= raw_encode_entry(canon_entries(sorted)[t as int]));
                    }
                    assert(canon_entries(sorted)[t as int] == (
                        sorted[t as int].0,
                        canon(sorted[t as int].1),
                    ));
                    assert(out@ =~= old(out)@ + seq![100u8] + raw_encode_entries(
                        canon_entries(sorted).take(t + 1),
                    ));
                }
                t = t + 1;
            }
            out.push(101);
            proof {
                assert(canon_entries(sorted).take(sorted.len() as int) =~= canon_entries(sorted));
                lemma_sort_canon_commute(pv);
                assert(final(out)@ =~= old(out)@ + (seq![100u8] + raw_encode_entries(
                    sort_entries(canon_entries(pv)),
                ) + seq![101u8]));
            }
        },
    }
}

/// Canonically bencode `v`: dictionary keys in ascending lexicographic
/// byte order at every depth, integers in minimal decimal form.
pub fn encode_bencoded_value(v: &BencodeValue) -> (r: Vec<u8>)
    ensures
        r@ == spec_encode(v@),
{
    let mut out: Vec<u8> = Vec::new();
    encode_into(v, &mut out);
    proof {
        assert(Seq::<u8>::empty() + spec_encode(v@) =~= spec_encode(v@));
    }
    out
}

/// `nat_digits` yields an accepted digit string: digits only, no
/// superfluous leading zero, and nonzero numbers never start with `0`.
pub proof fn lemma_nat_digits_valid(n: nat)
    ensures
        valid_nat_digits(nat_digits(n)),
        n >= 1 ==> nat_digits(n)[0] != 48,
        nat_digits(n).len() >= 1,
    decreases n,
{
    if n < 10 {
        assert(nat_digits(n) =~= seq![(48 + n) as u8]);
    } else {
        lemma_nat_digits_valid(n / 10);
        let a = nat_digits(n / 10);
        let d = nat_digits(n);
        assert(d =~= a + seq![(48 + n % 10) as u8]);
        assert(d[0] == a[0]);
        assert forall|i: int| 0 <= i < d.len() implies is_digit(#[trigger] d[i]) by {
            if i < a.len() {
                assert(d[i] == a[i]);
            }
        }
    }
}

/// The digits of `n` denote `n`.
pub proof fn lemma_nat_digits_value(n: nat)
    ensures
        digits_value(nat_digits(n)) == n,
    decreases n,
{
    if n < 10 {
        assert(nat_digits(n).drop_last() =~= Seq::<u8>::empty());
        assert(digits_value(Seq::<u8>::empty()) == 0);
        assert(nat_digits(n).last() == (48 + n) as u8);
    } else {
        lemma_nat_digits_value(n / 10);
        let a = nat_digits(n / 10);
        let d = nat_digits(n);
        assert(d.drop_last() =~= a);
        assert(d.last() == (48 + n % 10) as u8);
        assert(digits_value(d) == digits_value(a) * 10 + ((48 + n % 10) as u8) - 48);
        assert(((48 + n % 10) as u8) as int == 48 + n % 10);
        assert(digits_value(d) == (n / 10) * 10 + n % 10);
    }
}

/// The signed digit string of an `i64`-ranged integer is accepted and
/// denotes that integer; it never holds the byte `e`.
pub proof fn lemma_int_digits_valid(i: int)
    requires
        i64::MIN <= i <= i64::MAX,
    ensures
        valid_int_digits(int_digits(i)),
        int_digits_value(int_digits(i)) == i,
        int_digits(i).len() >= 1,
        forall|t: int| 0 <= t < int_digits(i).len() ==> #[trigger] int_digits(i)[t] != 101,
{
    if i < 0 {
        let m = (-i) as nat;
        lemma_nat_digits_valid(m);
        lemma_nat_digits_value(m);
        let d = int_digits(i);
        assert(d =~= seq![45u8] + nat_digits(m));
        assert(d[0] == 45);
        assert(d.drop_first() =~= nat_digits(m));
        assert(nat_digits(m)[0] != 48);
        assert(!(nat_digits(m) =~= seq![48u8]));
        assert forall|t: int| 0 <= t < d.len() implies #[trigger] d[t] != 101 by {
            if t > 0 {
                assert(d[t] == nat_digits(m)[t - 1]);
                assert(is_digit(nat_digits(m)[t - 1]));
            }
        }
    } else {
        lemma_nat_digits_valid(i as nat);
        lemma_nat_digits_value(i as nat);
        let d = int_digits(i);
        assert(d == nat_digits(i as nat));
        assert(d[0] != 45) by {
            assert(is_digit(d[0]));
        }
        assert forall|t: int| 0 <= t < d.len() implies #[trigger] d[t] != 101 by {
            assert(is_digit(d[t]));
        }
    }
}

/// Every encoding is at least two bytes and opens with `i`, `l`, `d` or a
/// digit; in particular never with `e` or `:`.
pub proof fn lemma_raw_encode_shape(v: SpecValue)
    ensures
        raw_encode(v).len() >= 2,
        raw_encode(v)[0] == 105 || raw_encode(v)[0] == 108 || raw_encode(v)[0] == 100 || is_digit(
            raw_encode(v)[0],
        ),
        raw_encode(v)[0] != 101,
        raw_encode(v)[0] != 58,
{
    match v {
        SpecValue::Integer(i) => {
            assert(raw_encode(v)[0] == 105);
            assert(int_digits(i).len() >= 1) by {
                if i < 0 {
                } else {
                    lemma_nat_digits_valid(i as nat);
                }
            }
        },
        SpecValue::ByteString(s) => {
            lemma_nat_digits_valid(s.len());
            assert(raw_encode(v)[0] == nat_digits(s.len())[0]);
            assert(is_digit(nat_digits(s.len())[0]));
        },
        SpecValue::List(items) => {
            assert(raw_encode(v)[0] == 108);
        },
        SpecValue::Dictionary(ps) => {
            assert(raw_encode(v)[0] == 100);
        },
    }
}

/// `find_byte` returns exactly the position that holds `b` first.
pub proof fn lemma_find_byte_at(s: Seq<u8>, b: u8, j: int)
    requires
        0 <= j < s.len(),
        s[j] == b,
        forall|t: int| 0 <= t < j ==> s[t] != b,
    ensures
        find_byte(s, b) == Some(j),
{
    lemma_find_byte(s, b);
    match find_byte(s, b) {
        Some(i) => {
            if i < j {
                assert(s[i] != b);
            }
            if i > j {
                assert(s[j] != b);
            }
        },
        None => {
            assert(s[j] != b);
        },
    }
}

/// Decoding an encoded integer yields that integer and the trailing bytes.
pub proof fn lemma_decode_integer(i: int, rest: Seq<u8>)
    requires
        i64::MIN <= i <= i64::MAX,
    ensures
        spec_decode(raw_encode(SpecValue::Integer(i)) + rest) == Some((SpecValue::Integer(i), rest)),
{
    lemma_int_digits_valid(i);
    let d = int_digits(i);
    let s = raw_encode(SpecValue::Integer(i)) + rest;
    assert(s[0] == 105);
    let body = s.drop_first();
    assert(body =~= d + seq![101u8] + rest);
    assert(body[d.len() as int] == 101);
    assert forall|t: int| 0 <= t < d.len() implies body[t] != 101 by {
        assert(body[t] == d[t]);
    }
    lemma_find_byte_at(body, 101, d.len() as int);
    assert(body.take(d.len() as int) =~= d);
    assert(body.skip(d.len() + 1 as int) =~= rest);
}

/// Decoding an encoded byte string yields that byte string and the
/// trailing bytes.
pub proof fn lemma_decode_bytestring(k: Seq<u8>, rest: Seq<u8>)
    ensures
        spec_decode(raw_encode(SpecValue::ByteString(k)) + rest) == Some(
            (SpecValue::ByteString(k), rest),
        ),
{
    lemma_nat_digits_valid(k.len());
    lemma_nat_digits_value(k.len());
    let nd = nat_digits(k.len());
    let s = raw_encode(SpecValue::ByteString(k)) + rest;
    assert(s =~= nd + seq![58u8] + k + rest);
    assert(s[0] == nd[0]);
    assert(is_digit(s[0]));
    assert(s[0] != 105 && s[0] != 101);
    assert(s[nd.len() as int] == 58);
    assert forall|t: int| 0 <= t < nd.len() implies s[t] != 58 by {
        assert(s[t] == nd[t]);
        assert(is_digit(nd[t]));
    }
    lemma_find_byte_at(s, 58, nd.len() as int);
    assert(s.take(nd.len() as int) =~= nd);
    let body = s.skip(nd.len() + 1 as int);
    assert(body =~= k + rest);
    assert(body.take(k.len() as int) =~= k);
    assert(body.skip(k.len() as int) =~= rest);
}

/// Folding a pair list whose keys are distinct appends each pair in turn.
pub proof fn lemma_entries_from_pairs_id(ps: Seq<(Seq<u8>, SpecValue)>)
    requires
        unique_keys(ps),
    ensures
        entries_from_pairs(ps) == ps,
    decreases ps.len(),
{
    if ps.len() > 0 {
        let dl = ps.drop_last();
        assert(unique_keys(dl)) by {
            assert forall|i: int, j: int| 0 <= i < j < dl.len() implies dl[i].0 != dl[j].0 by {
                assert(dl[i] == ps[i] && dl[j] == ps[j]);
            }
        }
        lemma_entries_from_pairs_id(dl);
        assert forall|t: int| 0 <= t < dl.len() implies dl[t].0 != ps.last().0 by {
            assert(dl[t] == ps[t]);
        }
        lemma_dict_insert_absent(dl, ps.last().0, ps.last().1);
        assert(dl.push(ps.last()) =~= ps);
    }
}

/// Entries stand in ascending key order.
pub open spec fn sorted_le(ps: Seq<(Seq<u8>, SpecValue)>) -> bool {
    forall|i: int, j: int| 0 <= i < j < ps.len() ==> lex_le(#[trigger] ps[i].0, #[trigger] ps[j].0)
}

/// A value in canonical arrangement: integers in `i64` range and every
/// dictionary, at every depth, sorted by key with distinct keys. Exactly
/// the values that `canon` produces from well-formed input, and exactly
/// those that decode back to themselves.
pub open spec fn canonical(v: SpecValue) -> bool
    decreases v,
{
    match v {
        SpecValue::Integer(i) => i64::MIN <= i <= i64::MAX,
        SpecValue::ByteString(_) => true,
        SpecValue::List(items) => canonical_items(items),
        SpecValue::Dictionary(ps) => sorted_le(ps) && unique_keys(ps) && canonical_entries(ps),
    }
}

/// `canonical` for every element of a list.
pub open spec fn canonical_items(items: Seq<SpecValue>) -> bool
    decreases items,
{
    if items.len() == 0 {
        true
    } else {
        canonical(items[0]) && canonical_items(items.drop_first())
    }
}

/// `canonical` for every value of a dictionary.
pub open spec fn canonical_entries(ps: Seq<(Seq<u8>, SpecValue)>) -> bool
    decreases ps,
{
    if ps.len() == 0 {
        true
    } else {
        canonical(ps[0].1) && canonical_entries(ps.drop_first())
    }
}

/// Decoding the encoding of a canonical value yields that value and the
/// trailing bytes untouched.
pub proof fn lemma_decode_raw_encode(v: SpecValue, rest: Seq<u8>)
    requires
        canonical(v),
    ensures
        spec_decode(raw_encode(v) + rest) == Some((v, rest)),
    decreases v,
{
    match v {
        SpecValue::Integer(i) => {
            lemma_decode_integer(i, rest);
        },
        SpecValue::ByteString(s) => {
            lemma_decode_bytestring(s, rest);
        },
        SpecValue::List(items) => {
            let s = raw_encode(v) + rest;
            assert(s[0] == 108);
            assert(!is_digit(108u8));
            let tail = seq![101u8] + rest;
            assert(tail[0] == 101);
            lemma_decode_list_items(items, tail);
            assert(s.drop_first() =~= raw_encode_items(items) + tail);
            assert(tail.drop_first() =~= rest);
        },
        SpecValue::Dictionary(ps) => {
            let s = raw_encode(v) + rest;
            assert(s[0] == 100);
            assert(!is_digit(100u8));
            let tail = seq![101u8] + rest;
            assert(tail[0] == 101);
            lemma_decode_dict_entries(ps, tail);
            assert(s.drop_first() =~= raw_encode_entries(ps) + tail);
            assert(tail.drop_first() =~= rest);
            lemma_entries_from_pairs_id(ps);
        },
    }
}

/// Decoding the concatenated encodings of canonical list elements, with a
/// terminator following, yields those elements.
pub proof fn lemma_decode_list_items(items: Seq<SpecValue>, tail: Seq<u8>)
    requires
        canonical_items(items),
        tail.len() >= 1,
        tail[0] == 101,
    ensures
        spec_decode_items(raw_encode_items(items) + tail) == Some((items, tail)),
    decreases items,
{
    if items.len() == 0 {
        assert(raw_encode_items(items) + tail =~= tail);
        assert(Seq::<SpecValue>::empty() =~= items);
    } else {
        let v0 = items[0];
        let enc0 = raw_encode(v0);
        let encrest = raw_encode_items(items.drop_first());
        let s = raw_encode_items(items) + tail;
        let x = encrest + tail;
        assert(s =~= enc0 + x);
        lemma_raw_encode_shape(v0);
        assert(s[0] == enc0[0]);
        assert(s[0] != 101);
        lemma_decode_raw_encode(v0, x);
        assert(spec_decode(s) == Some((v0, x)));
        assert(x.len() < s.len());
        lemma_decode_list_items(items.drop_first(), tail);
        assert(spec_decode_items(x) == Some((items.drop_first(), tail)));
        assert(seq![v0] + items.drop_first() =~= items);
    }
}

/// Decoding the concatenated encodings of dictionary entries with
/// canonical values, with a terminator following, yields those pairs in
/// order.
pub proof fn lemma_decode_dict_entries(ps: Seq<(Seq<u8>, SpecValue)>, tail: Seq<u8>)
    requires
        canonical_entries(ps),
        tail.len() >= 1,
        tail[0] == 101,
    ensures
        spec_decode_entries(raw_encode_entries(ps) + tail) == Some((ps, tail)),
    decreases ps,
{
    if ps.len() == 0 {
        assert(raw_encode_entries(ps) + tail =~= tail);
        assert(Seq::<(Seq<u8>, SpecValue)>::empty() =~= ps);
    } else {
        let k = ps[0].0;
        let v0 = ps[0].1;
        let kenc = raw_encode(SpecValue::ByteString(k));
        let venc = raw_encode(v0);
        let encrest = raw_encode_entries(ps.drop_first());
        let s = raw_encode_entries(ps) + tail;
        let x1 = venc + (encrest + tail);
        let x2 = encrest + tail;
        assert(s =~= kenc + x1) by {
            assert(kenc =~= nat_digits(k.len()) + seq![58u8] + k);
        }
        lemma_raw_encode_shape(SpecValue::ByteString(k));
        assert(s[0] == kenc[0]);
        assert(s[0] != 101);
        lemma_decode_bytestring(k, x1);
        assert(spec_decode(s) == Some((SpecValue::ByteString(k), x1)));
        assert(x1.len() < s.len());
        lemma_raw_encode_shape(v0);
        lemma_decode_raw_encode(v0, x2);
        assert(x1 =~= venc + x2);
        assert(spec_decode(x1) == Some((v0, x2)));
        assert(x2.len() < x1.len());
        lemma_decode_dict_entries(ps.drop_first(), tail);
        assert(spec_decode_entries(x2) == Some((ps.drop_first(), tail)));
        assert(seq![(k, v0)] + ps.drop_first() =~= ps);
    }
}

/// Some entry of `ps` has key `k`.
pub open spec fn has_key(ps: Seq<(Seq<u8>, SpecValue)>, k: Seq<u8>) -> bool {
    exists|t: int| 0 <= t < ps.len() && #[trigger] ps[t].0 == k
}

/// `canonical_entries` holds exactly when every entry's value is
/// canonical.
pub proof fn lemma_canonical_entries_char(ps: Seq<(Seq<u8>, SpecValue)>)
    ensures
        canonical_entries(ps) <==> (forall|i: int|
            0 <= i < ps.len() ==> canonical(#[trigger] ps[i].1)),
    decreases ps.len(),
{
    if ps.len() > 0 {
        lemma_canonical_entries_char(ps.drop_first());
        if canonical_entries(ps) {
            assert forall|i: int| 0 <= i < ps.len() implies canonical(#[trigger] ps[i].1) by {
                if i > 0 {
                    assert(ps.drop_first()[i - 1] == ps[i]);
                }
            }
        }
        if forall|i: int| 0 <= i < ps.len() ==> canonical(#[trigger] ps[i].1) {
            assert forall|i: int|
                0 <= i < ps.drop_first().len() implies canonical(
                #[trigger] ps.drop_first()[i].1,
            ) by {
                assert(ps.drop_first()[i] == ps[i + 1]);
            }
        }
    }
}



/// `wf_entries` holds exactly when every entry's value is well formed.
pub proof fn lemma_wf_entries_char(ps: Seq<(Seq<u8>, SpecValue)>)
    ensures
        wf_entries(ps) <==> (forall|i: int| 0 <= i < ps.len() ==> wf_value(#[trigger] ps[i].1)),
    decreases ps.len(),
{
    if ps.len() > 0 {
        lemma_wf_entries_char(ps.drop_first());
        if wf_entries(ps) {
            assert forall|i: int| 0 <= i < ps.len() implies wf_value(#[trigger] ps[i].1) by {
                if i > 0 {
                    assert(ps.drop_first()[i - 1] == ps[i]);
                }
            }
        }
        if forall|i: int| 0 <= i < ps.len() ==> wf_value(#[trigger] ps[i].1) {
            assert forall|i: int|
                0 <= i < ps.drop_first().len() implies wf_value(
                #[trigger] ps.drop_first()[i].1,
            ) by {
                assert(ps.drop_first()[i] == ps[i + 1]);
            }
        }
    }
}

/// Insertion-ordered insertion keeps keys distinct and values well
/// formed, and adds or keeps exactly the inserted key.
pub proof fn lemma_dict_insert_wf(ps: Seq<(Seq<u8>, SpecValue)>, k: Seq<u8>, v: SpecValue)
    requires
        unique_keys(ps),
        wf_entries(ps),
        wf_value(v),
    ensures
        unique_keys(dict_insert(ps, k, v)),
        wf_entries(dict_insert(ps, k, v)),
        forall|k2: Seq<u8>| #[trigger]
            has_key(dict_insert(ps, k, v), k2) <==> has_key(ps, k2) || k2 == k,
    decreases ps.len(),
{
    lemma_wf_entries_char(ps);
    let r = dict_insert(ps, k, v);
    if ps.len() == 0 {
        assert(r =~= seq![(k, v)]);
        assert(r[0] == (k, v));
        assert(r.drop_first() =~= Seq::<(Seq<u8>, SpecValue)>::empty());
        assert(wf_entries(Seq::<(Seq<u8>, SpecValue)>::empty()));
        assert forall|k2: Seq<u8>| #[trigger] has_key(r, k2) <==> has_key(ps, k2) || k2 == k by {
            if has_key(r, k2) {
                let w = choose|w: int| 0 <= w < r.len() && #[trigger] r[w].0 == k2;
            }
            if k2 == k {
                assert(r[0].0 == k2);
            }
        }
    } else if ps[0].0 == k {
        assert(r == seq![(k, v)] + ps.drop_first());
        assert(r[0] == (k, v));
        assert(r.drop_first() =~= ps.drop_first());
        assert forall|i: int, j: int| 0 <= i < j < r.len() implies #[trigger] r[i].0
            != #[trigger] r[j].0 by {
            if i == 0 {
                assert(r[j] == ps[j]);
                assert(ps[0].0 != ps[j].0);
            } else {
                assert(r[i] == ps[i] && r[j] == ps[j]);
            }
        }
        assert(wf_entries(r)) by {
            lemma_wf_entries_char(r);
            assert forall|i: int| 0 <= i < r.len() implies wf_value(#[trigger] r[i].1) by {
                if i > 0 {
                    assert(r[i] == ps[i]);
                }
            }
        }
        assert forall|k2: Seq<u8>| #[trigger] has_key(r, k2) <==> has_key(ps, k2) || k2 == k by {
            if has_key(r, k2) {
                let w = choose|w: int| 0 <= w < r.len() && #[trigger] r[w].0 == k2;
                if w > 0 {
                    assert(ps[w].0 == k2);
                    assert(has_key(ps, k2));
                }
            }
            if has_key(ps, k2) {
                let w = choose|w: int| 0 <= w < ps.len() && #[trigger] ps[w].0 == k2;
                if w == 0 {
                    assert(k2 == k);
                } else {
                    assert(r[w].0 == k2);
                }
            }
            if k2 == k {
                assert(r[0].0 == k2);
            }
        }
    } else {
        let df = ps.drop_first();
        assert(unique_keys(df)) by {
            assert forall|i: int, j: int| 0 <= i < j < df.len() implies #[trigger] df[i].0
                != #[trigger] df[j].0 by {
                assert(df[i] == ps[i + 1] && df[j] == ps[j + 1]);
            }
        }
        assert(wf_entries(df));
        lemma_dict_insert_wf(df, k, v);
        let inner = dict_insert(df, k, v);
        assert(r == seq![ps[0]] + inner);
        assert forall|i: int, j: int| 0 <= i < j < r.len() implies #[trigger] r[i].0
            != #[trigger] r[j].0 by {
            if i == 0 {
                assert(r[j] == inner[j - 1]);
                let k2 = inner[j - 1].0;
                assert(has_key(inner, k2)) by {
                    assert(inner[j - 1].0 == k2);
                }
                assert(has_key(df, k2) || k2 == k);
                if has_key(df, k2) {
                    let u = choose|u: int| 0 <= u < df.len() && #[trigger] df[u].0 == k2;
                    assert(ps[u + 1].0 == k2);
                    assert(ps[0].0 != ps[u + 1].0);
                }
            } else {
                assert(r[i] == inner[i - 1] && r[j] == inner[j - 1]);
            }
        }
        assert(wf_entries(r)) by {
            lemma_wf_entries_char(r);
            lemma_wf_entries_char(inner);
            assert forall|i: int| 0 <= i < r.len() implies wf_value(#[trigger] r[i].1) by {
                if i > 0 {
                    assert(r[i] == inner[i - 1]);
                }
            }
        }
        assert forall|k2: Seq<u8>| #[trigger] has_key(r, k2) <==> has_key(ps, k2) || k2 == k by {
            if has_key(r, k2) {
                let w = choose|w: int| 0 <= w < r.len() && #[trigger] r[w].0 == k2;
                if w == 0 {
                    assert(ps[0].0 == k2);
                    assert(has_key(ps, k2));
                } else {
                    assert(inner[w - 1].0 == k2);
                    assert(has_key(inner, k2));
                    if has_key(df, k2) {
                        let u = choose|u: int| 0 <= u < df.len() && #[trigger] df[u].0 == k2;
                        assert(ps[u + 1].0 == k2);
                        assert(has_key(ps, k2));
                    }
                }
            }
            if has_key(ps, k2) {
                let w = choose|w: int| 0 <= w < ps.len() && #[trigger] ps[w].0 == k2;
                if w == 0 {
                    assert(r[0].0 == k2);
                } else {
                    assert(df[w - 1].0 == k2);
                    assert(has_key(df, k2));
                    assert(has_key(inner, k2));
                    let u = choose|u: int| 0 <= u < inner.len() && #[trigger] inner[u].0 == k2;
                    assert(r[u + 1].0 == k2);
                }
            }
            if k2 == k {
                assert(has_key(inner, k2));
                let u = choose|u: int| 0 <= u < inner.len() && #[trigger] inner[u].0 == k2;
                assert(r[u + 1].0 == k2);
            }
        }
    }
}

/// Folding a pair list with well-formed values yields dictionary entries
/// with distinct keys and well-formed values.
pub proof fn lemma_entries_from_pairs_wf(raw: Seq<(Seq<u8>, SpecValue)>)
    requires
        wf_entries(raw),
    ensures
        unique_keys(entries_from_pairs(raw)),
        wf_entries(entries_from_pairs(raw)),
    decreases raw.len(),
{
    if raw.len() > 0 {
        let dl = raw.drop_last();
        lemma_wf_entries_char(raw);
        assert(wf_entries(dl)) by {
            lemma_wf_entries_char(dl);
            assert forall|i: int| 0 <= i < dl.len() implies wf_value(#[trigger] dl[i].1) by {
                assert(dl[i] == raw[i]);
            }
        }
        lemma_entries_from_pairs_wf(dl);
        assert(wf_value(raw.last().1)) by {
            assert(raw[raw.len() - 1].1 == raw.last().1);
        }
        lemma_dict_insert_wf(entries_from_pairs(dl), raw.last().0, raw.last().1);
    }
}

/// Prefixing one element inserts it into the multiset of the rest.
pub proof fn lemma_cons_to_multiset(p: (Seq<u8>, SpecValue), ps: Seq<(Seq<u8>, SpecValue)>)
    ensures
        (seq![p] + ps).to_multiset() == ps.to_multiset().insert(p),
{
    broadcast use vstd::seq_lib::group_to_multiset_ensures;
    broadcast use vstd::multiset::group_multiset_axioms;

    let s = seq![p] + ps;
    assert(s.remove(0) =~= ps);
    assert(s.remove(0).to_multiset() =~= s.to_multiset().remove(s[0]));
    assert(s[0] == p);
    assert(s.contains(p)) by {
        assert(s[0] == p);
    }
    assert(s.to_multiset().count(p) > 0);
    assert(s.to_multiset() =~= ps.to_multiset().insert(p));
}

/// Sorted insertion keeps entries sorted, and adds exactly the new entry
/// to the contents.
pub proof fn lemma_insert_entry_sorted_props(ps: Seq<(Seq<u8>, SpecValue)>, p: (Seq<u8>, SpecValue))
    requires
        sorted_le(ps),
    ensures
        sorted_le(insert_entry_sorted(ps, p)),
        insert_entry_sorted(ps, p).len() == ps.len() + 1,
        insert_entry_sorted(ps, p).to_multiset() == ps.to_multiset().insert(p),
        forall|q: (Seq<u8>, SpecValue)| #[trigger]
            insert_entry_sorted(ps, p).contains(q) <==> ps.contains(q) || q == p,
    decreases ps.len(),
{
    broadcast use vstd::seq_lib::lemma_seq_contains;

    let r = insert_entry_sorted(ps, p);
    if ps.len() == 0 {
        lemma_cons_to_multiset(p, ps);
        assert(seq![p] + ps =~= seq![p]);
        assert(r =~= seq![p]);
        assert(r[0] == p);
    } else if lex_le(p.0, ps[0].0) {
        assert(r == seq![p] + ps);
        lemma_cons_to_multiset(p, ps);
        assert forall|i: int, j: int| 0 <= i < j < r.len() implies lex_le(
            #[trigger] r[i].0,
            #[trigger] r[j].0,
        ) by {
            if i == 0 {
                assert(r[j] == ps[j - 1]);
                if j - 1 == 0 {
                    assert(lex_le(p.0, ps[0].0));
                } else {
                    lemma_lex_le_transitive(p.0, ps[0].0, ps[j - 1].0);
                }
            } else {
                assert(r[i] == ps[i - 1] && r[j] == ps[j - 1]);
            }
        }
        assert forall|q: (Seq<u8>, SpecValue)| #[trigger]
            r.contains(q) <==> ps.contains(q) || q == p by {
            if r.contains(q) {
                let w = choose|w: int| 0 <= w < r.len() && r[w] == q;
                if w == 0 {
                } else {
                    assert(ps[w - 1] == q);
                }
            }
            if ps.contains(q) {
                let w = choose|w: int| 0 <= w < ps.len() && ps[w] == q;
                assert(r[w + 1] == q);
            }
            if q == p {
                assert(r[0] == q);
            }
        }
    } else {
        lemma_lex_le_connected(p.0, ps[0].0);
        assert(lex_le(ps[0].0, p.0));
        let df = ps.drop_first();
        assert(sorted_le(df)) by {
            assert forall|i: int, j: int| 0 <= i < j < df.len() implies lex_le(
                #[trigger] df[i].0,
                #[trigger] df[j].0,
            ) by {
                assert(df[i] == ps[i + 1] && df[j] == ps[j + 1]);
            }
        }
        lemma_insert_entry_sorted_props(df, p);
        let inner = insert_entry_sorted(df, p);
        assert(r == seq![ps[0]] + inner);
        assert forall|i: int, j: int| 0 <= i < j < r.len() implies lex_le(
            #[trigger] r[i].0,
            #[trigger] r[j].0,
        ) by {
            if i == 0 {
                assert(r[j] == inner[j - 1]);
                assert(inner.contains(inner[j - 1]));
                if inner[j - 1] == p {
                    assert(lex_le(ps[0].0, p.0));
                } else {
                    assert(df.contains(inner[j - 1]));
                    let w = choose|w: int| 0 <= w < df.len() && df[w] == inner[j - 1];
                    assert(df[w] == ps[w + 1]);
                    assert(lex_le(ps[0].0, ps[w + 1].0));
                }
            } else {
                assert(r[i] == inner[i - 1] && r[j] == inner[j - 1]);
            }
        }
        lemma_cons_to_multiset(ps[0], inner);
        lemma_cons_to_multiset(ps[0], df);
        assert(seq![ps[0]] + df =~= ps);
        broadcast use vstd::multiset::group_multiset_axioms;

        assert(r.to_multiset() == inner.to_multiset().insert(ps[0]));
        assert(inner.to_multiset() == df.to_multiset().insert(p));
        assert(ps.to_multiset() == df.to_multiset().insert(ps[0]));
        assert(df.to_multiset().insert(p).insert(ps[0]) =~= df.to_multiset().insert(
            ps[0],
        ).insert(p));
        assert forall|q: (Seq<u8>, SpecValue)| #[trigger]
            r.contains(q) <==> ps.contains(q) || q == p by {
            if r.contains(q) {
                let w = choose|w: int| 0 <= w < r.len() && r[w] == q;
                if w == 0 {
                    assert(ps[0] == q);
                } else {
                    assert(inner[w - 1] == q);
                    assert(inner.contains(q));
                    if df.contains(q) {
                        let u = choose|u: int| 0 <= u < df.len() && df[u] == q;
                        assert(ps[u + 1] == q);
                    }
                }
            }
            if ps.contains(q) {
                let w = choose|w: int| 0 <= w < ps.len() && ps[w] == q;
                if w == 0 {
                    assert(r[0] == q);
                } else {
                    assert(df[w - 1] == q);
                    assert(df.contains(q));
                    assert(inner.contains(q));
                    let u = choose|u: int| 0 <= u < inner.len() && inner[u] == q;
                    assert(r[u + 1] == q);
                }
            }
            if q == p {
                assert(inner.contains(q));
                let u = choose|u: int| 0 <= u < inner.len() && inner[u] == q;
                assert(r[u + 1] == q);
            }
        }
    }
}

/// Sorting keeps the entries themselves: same multiset, same contents,
/// ascending key order.
pub proof fn lemma_sort_entries_props(ps: Seq<(Seq<u8>, SpecValue)>)
    ensures
        sorted_le(sort_entries(ps)),
        sort_entries(ps).len() == ps.len(),
        sort_entries(ps).to_multiset() == ps.to_multiset(),
        forall|q: (Seq<u8>, SpecValue)| #[trigger]
            sort_entries(ps).contains(q) <==> ps.contains(q),
    decreases ps.len(),
{
    broadcast use vstd::seq_lib::group_to_multiset_ensures;
    broadcast use vstd::seq_lib::lemma_seq_contains;

    if ps.len() > 0 {
        let dl = ps.drop_last();
        lemma_sort_entries_props(dl);
        lemma_insert_entry_sorted_props(sort_entries(dl), ps.last());
        assert(dl.push(ps.last()) =~= ps);
        assert(ps.to_multiset() == dl.to_multiset().insert(ps.last()));
        assert forall|q: (Seq<u8>, SpecValue)| #[trigger]
            sort_entries(ps).contains(q) <==> ps.contains(q) by {
            if sort_entries(ps).contains(q) {
                if dl.contains(q) {
                    let w = choose|w: int| 0 <= w < dl.len() && dl[w] == q;
                    assert(ps[w] == q);
                }
                if q == ps.last() {
                    assert(ps[ps.len() - 1] == q);
                }
            }
            if ps.contains(q) {
                let w = choose|w: int| 0 <= w < ps.len() && ps[w] == q;
                if w < ps.len() - 1 {
                    assert(dl[w] == q);
                    assert(dl.contains(q));
                }
            }
        }
    }
}

/// Sorted insertion of a fresh key keeps keys distinct, and adds exactly
/// that key.
pub proof fn lemma_insert_entry_sorted_unique(ps: Seq<(Seq<u8>, SpecValue)>, p: (Seq<u8>, SpecValue))
    requires
        unique_keys(ps),
        !has_key(ps, p.0),
    ensures
        unique_keys(insert_entry_sorted(ps, p)),
        forall|k: Seq<u8>| #[trigger]
            has_key(insert_entry_sorted(ps, p), k) <==> has_key(ps, k) || k == p.0,
    decreases ps.len(),
{
    let r = insert_entry_sorted(ps, p);
    if ps.len() == 0 {
        assert(r =~= seq![p]);
        assert(r[0] == p);
        assert forall|k: Seq<u8>| #[trigger] has_key(r, k) <==> has_key(ps, k) || k == p.0 by {
            if has_key(r, k) {
                let w = choose|w: int| 0 <= w < r.len() && #[trigger] r[w].0 == k;
                assert(r[w] == p);
            }
            if k == p.0 {
                assert(r[0].0 == k);
            }
        }
    } else if lex_le(p.0, ps[0].0) {
        assert(r == seq![p] + ps);
        assert forall|i: int, j: int| 0 <= i < j < r.len() implies #[trigger] r[i].0
            != #[trigger] r[j].0 by {
            if i == 0 {
                assert(r[j] == ps[j - 1]);
                assert(ps[j - 1].0 != p.0) by {
                    if ps[j - 1].0 == p.0 {
                        assert(has_key(ps, p.0));
                    }
                }
            } else {
                assert(r[i] == ps[i - 1] && r[j] == ps[j - 1]);
            }
        }
        assert forall|k: Seq<u8>| #[trigger] has_key(r, k) <==> has_key(ps, k) || k == p.0 by {
            if has_key(r, k) {
                let w = choose|w: int| 0 <= w < r.len() && #[trigger] r[w].0 == k;
                if w > 0 {
                    assert(ps[w - 1].0 == k);
                    assert(has_key(ps, k));
                }
            }
            if has_key(ps, k) {
                let w = choose|w: int| 0 <= w < ps.len() && #[trigger] ps[w].0 == k;
                assert(r[w + 1].0 == k);
            }
            if k == p.0 {
                assert(r[0].0 == k);
            }
        }
    } else {
        let df = ps.drop_first();
        assert(unique_keys(df)) by {
            assert forall|i: int, j: int| 0 <= i < j < df.len() implies #[trigger] df[i].0
                != #[trigger] df[j].0 by {
                assert(df[i] == ps[i + 1] && df[j] == ps[j + 1]);
            }
        }
        assert(!has_key(df, p.0)) by {
            if has_key(df, p.0) {
                let w = choose|w: int| 0 <= w < df.len() && #[trigger] df[w].0 == p.0;
                assert(ps[w + 1].0 == p.0);
                assert(has_key(ps, p.0));
            }
        }
        lemma_insert_entry_sorted_unique(df, p);
        let inner = insert_entry_sorted(df, p);
        assert(r == seq![ps[0]] + inner);
        assert(ps[0].0 != p.0) by {
            if ps[0].0 == p.0 {
                assert(has_key(ps, p.0));
            }
        }
        assert forall|i: int, j: int| 0 <= i < j < r.len() implies #[trigger] r[i].0
            != #[trigger] r[j].0 by {
            if i == 0 {
                assert(r[j] == inner[j - 1]);
                let k = inner[j - 1].0;
                assert(has_key(inner, k)) by {
                    assert(inner[j - 1].0 == k);
                }
                assert(has_key(df, k) || k == p.0);
                if has_key(df, k) {
                    let u = choose|u: int| 0 <= u < df.len() && #[trigger] df[u].0 == k;
                    assert(ps[u + 1].0 == k);
                    assert(ps[0].0 != ps[u + 1].0);
                }
            } else {
                assert(r[i] == inner[i - 1] && r[j] == inner[j - 1]);
            }
        }
        assert forall|k: Seq<u8>| #[trigger] has_key(r, k) <==> has_key(ps, k) || k == p.0 by {
            if has_key(r, k) {
                let w = choose|w: int| 0 <= w < r.len() && #[trigger] r[w].0 == k;
                if w == 0 {
                    assert(ps[0].0 == k);
                    assert(has_key(ps, k));
                } else {
                    assert(inner[w - 1].0 == k);
                    assert(has_key(inner, k));
                    if has_key(df, k) {
                        let u = choose|u: int| 0 <= u < df.len() && #[trigger] df[u].0 == k;
                        assert(ps[u + 1].0 == k);
                        assert(has_key(ps, k));
                    }
                }
            }
            if has_key(ps, k) {
                let w = choose|w: int| 0 <= w < ps.len() && #[trigger] ps[w].0 == k;
                if w == 0 {
                    assert(r[0].0 == k);
                } else {
                    assert(df[w - 1].0 == k);
                    assert(has_key(df, k));
                    assert(has_key(inner, k));
                    let u = choose|u: int| 0 <= u < inner.len() && #[trigger] inner[u].0 == k;
                    assert(r[u + 1].0 == k);
                }
            }
            if k == p.0 {
                assert(has_key(inner, k));
                let u = choose|u: int| 0 <= u < inner.len() && #[trigger] inner[u].0 == k;
                assert(r[u + 1].0 == k);
            }
        }
    }
}

/// Sorting entries with distinct keys keeps the keys distinct and keeps
/// exactly those keys.
pub proof fn lemma_sort_entries_unique(ps: Seq<(Seq<u8>, SpecValue)>)
    requires
        unique_keys(ps),
    ensures
        unique_keys(sort_entries(ps)),
        forall|k: Seq<u8>| #[trigger] has_key(sort_entries(ps), k) <==> has_key(ps, k),
    decreases ps.len(),
{
    if ps.len() == 0 {
        assert forall|k: Seq<u8>| #[trigger]
            has_key(sort_entries(ps), k) <==> has_key(ps, k) by {
            if has_key(sort_entries(ps), k) {
                let w = choose|w: int|
                    0 <= w < sort_entries(ps).len() && #[trigger] sort_entries(ps)[w].0 == k;
            }
        }
    } else {
        let dl = ps.drop_last();
        assert(unique_keys(dl)) by {
            assert forall|i: int, j: int| 0 <= i < j < dl.len() implies #[trigger] dl[i].0
                != #[trigger] dl[j].0 by {
                assert(dl[i] == ps[i] && dl[j] == ps[j]);
            }
        }
        lemma_sort_entries_unique(dl);
        lemma_sort_entries_props(dl);
        assert(!has_key(sort_entries(dl), ps.last().0)) by {
            if has_key(sort_entries(dl), ps.last().0) {
                assert(has_key(dl, ps.last().0));
                let w = choose|w: int| 0 <= w < dl.len() && #[trigger] dl[w].0 == ps.last().0;
                assert(ps[w].0 == ps[ps.len() - 1].0);
            }
        }
        lemma_insert_entry_sorted_unique(sort_entries(dl), ps.last());
        assert forall|k: Seq<u8>| #[trigger]
            has_key(sort_entries(ps), k) <==> has_key(ps, k) by {
            assert(has_key(sort_entries(ps), k) <==> has_key(sort_entries(dl), k) || k
                == ps.last().0);
            if has_key(dl, k) {
                let w = choose|w: int| 0 <= w < dl.len() && #[trigger] dl[w].0 == k;
                assert(ps[w].0 == k);
                assert(has_key(ps, k));
            }
            if k == ps.last().0 {
                assert(ps[ps.len() - 1].0 == k);
                assert(has_key(ps, k));
            }
            if has_key(ps, k) {
                let w = choose|w: int| 0 <= w < ps.len() && #[trigger] ps[w].0 == k;
                if w < ps.len() - 1 {
                    assert(dl[w].0 == k);
                    assert(has_key(dl, k));
                } else {
                    assert(k == ps.last().0);
                }
            }
        }
    }
}

/// Canonicalizing a well-formed value yields a canonical one.
pub proof fn lemma_canon_canonical(v: SpecValue)
    requires
        wf_value(v),
    ensures
        canonical(canon(v)),
    decreases v,
{
    broadcast use vstd::seq_lib::lemma_seq_contains;

    match v {
        SpecValue::Integer(_) => {},
        SpecValue::ByteString(_) => {},
        SpecValue::List(items) => {
            lemma_canon_canonical_items(items);
        },
        SpecValue::Dictionary(ps) => {
            lemma_canon_canonical_entries(ps);
            lemma_canon_entries(ps);
            let ce = canon_entries(ps);
            assert(unique_keys(ce)) by {
                assert forall|i: int, j: int| 0 <= i < j < ce.len() implies #[trigger] ce[i].0
                    != #[trigger] ce[j].0 by {
                    assert(ce[i].0 == ps[i].0 && ce[j].0 == ps[j].0);
                }
            }
            lemma_sort_entries_props(ce);
            lemma_sort_entries_unique(ce);
            let sorted = sort_entries(ce);
            lemma_canonical_entries_char(ce);
            lemma_canonical_entries_char(sorted);
            assert forall|i: int| 0 <= i < sorted.len() implies canonical(
                #[trigger] sorted[i].1,
            ) by {
                assert(sorted.contains(sorted[i]));
                assert(ce.contains(sorted[i]));
                let w = choose|w: int| 0 <= w < ce.len() && ce[w] == sorted[i];
                assert(canonical(ce[w].1));
            }
        },
    }
}

/// Canonicalizing well-formed list elements yields canonical ones.
pub proof fn lemma_canon_canonical_items(items: Seq<SpecValue>)
    requires
        wf_items(items),
    ensures
        canonical_items(canon_items(items)),
    decreases items,
{
    if items.len() > 0 {
        let c = canon_items(items);
        assert(c == seq![canon(items[0])] + canon_items(items.drop_first()));
        assert(c[0] == canon(items[0]));
        lemma_canon_canonical(items[0]);
        lemma_canon_canonical_items(items.drop_first());
        assert(c.drop_first() =~= canon_items(items.drop_first()));
    }
}

/// Canonicalizing well-formed entry values yields canonical ones.
pub proof fn lemma_canon_canonical_entries(ps: Seq<(Seq<u8>, SpecValue)>)
    requires
        wf_entries(ps),
    ensures
        canonical_entries(canon_entries(ps)),
    decreases ps,
{
    if ps.len() > 0 {
        let c = canon_entries(ps);
        assert(c == seq![(ps[0].0, canon(ps[0].1))] + canon_entries(ps.drop_first()));
        assert(c[0] == (ps[0].0, canon(ps[0].1)));
        lemma_canon_canonical(ps[0].1);
        lemma_canon_canonical_entries(ps.drop_first());
        assert(c.drop_first() =~= canon_entries(ps.drop_first()));
    }
}

/// Decoding the canonical encoding of any well-formed value, with any
/// bytes following, reconstructs the value in canonical arrangement — the
/// same integers and byte strings, the same lists, and dictionaries equal
/// as key/value content — and leaves the trailing bytes untouched.
pub proof fn lemma_decode_of_encode(v: SpecValue, rest: Seq<u8>)
    requires
        wf_value(v),
    ensures
        spec_decode(spec_encode(v) + rest) == Some((canon(v), rest)),
{
    lemma_canon_canonical(v);
    lemma_decode_raw_encode(canon(v), rest);
}

/// Round trip for integers: decoding the encoding of any `i64` yields
/// that integer exactly, with nothing left over.
pub proof fn lemma_integer_round_trip(i: i64)
    ensures
        spec_decode(spec_encode(SpecValue::Integer(i as int))) == Some(
            (SpecValue::Integer(i as int), Seq::<u8>::empty()),
        ),
{
    let v = SpecValue::Integer(i as int);
    lemma_decode_of_encode(v, Seq::<u8>::empty());
    assert(spec_encode(v) + Seq::<u8>::empty() =~= spec_encode(v));
}

/// Round trip for byte strings: decoding the encoding of any byte string
/// yields that byte string exactly, with nothing left over.
pub proof fn lemma_bytestring_round_trip(s: Seq<u8>)
    ensures
        spec_decode(spec_encode(SpecValue::ByteString(s))) == Some(
            (SpecValue::ByteString(s), Seq::<u8>::empty()),
        ),
{
    let v = SpecValue::ByteString(s);
    lemma_decode_of_encode(v, Seq::<u8>::empty());
    assert(spec_encode(v) + Seq::<u8>::empty() =~= spec_encode(v));
}

/// Equality up to dictionary entry order: integers and byte strings must
/// match exactly, lists element for element, while a dictionary may list
/// the same keyed entries in any order.
pub open spec fn equiv(a: SpecValue, b: SpecValue) -> bool
    decreases a,
{
    match (a, b) {
        (SpecValue::Integer(x), SpecValue::Integer(y)) => x == y,
        (SpecValue::ByteString(x), SpecValue::ByteString(y)) => x == y,
        (SpecValue::List(x), SpecValue::List(y)) => equiv_items(x, y),
        (SpecValue::Dictionary(x), SpecValue::Dictionary(y)) => x.len() == y.len() && (forall|
            i: int,
        |
            0 <= i < x.len() ==> exists|j: int|
                0 <= j < y.len() && (#[trigger] y[j]).0 == (#[trigger] x[i]).0 && equiv(
                    x[i].1,
                    y[j].1,
                )),
        _ => false,
    }
}

/// `equiv` for lists, element for element.
pub open spec fn equiv_items(x: Seq<SpecValue>, y: Seq<SpecValue>) -> bool
    decreases x,
{
    x.len() == y.len() && (x.len() == 0 || (equiv(x[0], y[0]) && equiv_items(
        x.drop_first(),
        y.drop_first(),
    )))
}

/// Every value is equal, up to dictionary entry order, to its canonical
/// form.
pub proof fn lemma_equiv_canon(v: SpecValue)
    ensures
        equiv(v, canon(v)),
    decreases v,
{
    broadcast use vstd::seq_lib::lemma_seq_contains;

    match v {
        SpecValue::Integer(_) => {},
        SpecValue::ByteString(_) => {},
        SpecValue::List(items) => {
            lemma_equiv_canon_items(items);
        },
        SpecValue::Dictionary(ps) => {
            lemma_canon_entries(ps);
            lemma_sort_entries_props(canon_entries(ps));
            let sorted = sort_entries(canon_entries(ps));
            assert forall|i: int| 0 <= i < ps.len() implies exists|j: int|
                0 <= j < sorted.len() && (#[trigger] sorted[j]).0 == (#[trigger] ps[i]).0 && equiv(
                    ps[i].1,
                    sorted[j].1,
                ) by {
                let ce = (ps[i].0, canon(ps[i].1));
                assert(canon_entries(ps)[i] == ce);
                assert(canon_entries(ps).contains(ce));
                assert(sorted.contains(ce));
                let j = choose|j: int| 0 <= j < sorted.len() && sorted[j] == ce;
                lemma_equiv_canon(ps[i].1);
                assert(sorted[j].0 == ps[i].0 && equiv(ps[i].1, sorted[j].1));
            }
        },
    }
}

/// Every list is equal, element for element up to dictionary entry
/// order, to its canonical form.
pub proof fn lemma_equiv_canon_items(items: Seq<SpecValue>)
    ensures
        equiv_items(items, canon_items(items)),
    decreases items,
{
    if items.len() > 0 {
        lemma_canon_items(items);
        lemma_equiv_canon(items[0]);
        lemma_equiv_canon_items(items.drop_first());
        assert(canon_items(items)[0] == canon(items[0]));
        assert(canon_items(items).drop_first() =~= canon_items(items.drop_first())) by {
            lemma_canon_items(items.drop_first());
            assert forall|t: int|
                0 <= t < items.drop_first().len() implies canon_items(items).drop_first()[t]
                == canon_items(items.drop_first())[t] by {
                assert(items.drop_first()[t] == items[t + 1]);
            }
        }
    }
}

/// Round trip for lists and dictionaries of well-formed values: decoding
/// the canonical encoding of `v` consumes it whole and reconstructs an
/// equal value — equal outright for integers, byte strings and list
/// structure, and as key/value content for dictionaries, whose entries
/// come back sorted rather than in insertion order.
pub proof fn lemma_value_round_trip(v: SpecValue)
    requires
        wf_value(v),
    ensures
        spec_decode(spec_encode(v)) is Some,
        (spec_decode(spec_encode(v))->0).1 == Seq::<u8>::empty(),
        equiv(v, (spec_decode(spec_encode(v))->0).0),
{
    lemma_decode_of_encode(v, Seq::<u8>::empty());
    assert(spec_encode(v) + Seq::<u8>::empty() =~= spec_encode(v));
    lemma_equiv_canon(v);
}

/// Canonicalizing entries of two rearrangements of the same content
/// yields rearrangements of the same content.
pub proof fn lemma_canon_entries_multiset(ps1: Seq<(Seq<u8>, SpecValue)>, ps2: Seq<
    (Seq<u8>, SpecValue),
>)
    requires
        ps1.to_multiset() == ps2.to_multiset(),
    ensures
        canon_entries(ps1).to_multiset() == canon_entries(ps2).to_multiset(),
    decreases ps1.len(),
{
    broadcast use vstd::seq_lib::group_to_multiset_ensures;
    broadcast use vstd::seq_lib::lemma_seq_contains;
    broadcast use vstd::multiset::group_multiset_axioms;

    lemma_canon_entries(ps1);
    lemma_canon_entries(ps2);
    if ps1.len() == 0 {
        assert(ps2.len() == ps2.to_multiset().len());
        assert(ps2.len() == 0);
    } else {
        let e = ps1[0];
        let ce = (e.0, canon(e.1));
        assert(ps1.contains(e));
        assert(ps1.to_multiset().count(e) > 0);
        assert(ps2.contains(e));
        let j = choose|j: int| 0 <= j < ps2.len() && ps2[j] == e;
        assert(ps1.drop_first() =~= ps1.remove(0));
        assert(ps1.remove(0).to_multiset() =~= ps1.to_multiset().remove(e));
        assert(ps2.remove(j).to_multiset() =~= ps2.to_multiset().remove(e));
        lemma_canon_entries_multiset(ps1.drop_first(), ps2.remove(j));
        lemma_canon_entries(ps1.drop_first());
        lemma_canon_entries(ps2.remove(j));
        assert(canon_entries(ps2.remove(j)) =~= canon_entries(ps2).remove(j)) by {
            assert forall|t: int|
                0 <= t < ps2.remove(j).len() implies canon_entries(ps2.remove(j))[t]
                == canon_entries(ps2).remove(j)[t] by {
                if t < j {
                    assert(ps2.remove(j)[t] == ps2[t]);
                } else {
                    assert(ps2.remove(j)[t] == ps2[t + 1]);
                }
            }
        }
        assert(canon_entries(ps2).remove(j).to_multiset() =~= canon_entries(
            ps2,
        ).to_multiset().remove(canon_entries(ps2)[j]));
        assert(canon_entries(ps2)[j] == ce);
        assert(canon_entries(ps1).drop_first() =~= canon_entries(ps1.drop_first())) by {
            assert forall|t: int|
                0 <= t < ps1.drop_first().len() implies canon_entries(ps1).drop_first()[t]
                == canon_entries(ps1.drop_first())[t] by {
                assert(ps1.drop_first()[t] == ps1[t + 1]);
            }
        }
        assert(canon_entries(ps1).drop_first() =~= canon_entries(ps1).remove(0));
        assert(canon_entries(ps1).remove(0).to_multiset() =~= canon_entries(
            ps1,
        ).to_multiset().remove(canon_entries(ps1)[0]));
        assert(canon_entries(ps1)[0] == ce);
        assert(canon_entries(ps1).to_multiset().remove(ce) == canon_entries(
            ps2,
        ).to_multiset().remove(ce));
        assert(canon_entries(ps1).contains(ce)) by {
            assert(canon_entries(ps1)[0] == ce);
        }
        assert(canon_entries(ps2).contains(ce)) by {
            assert(canon_entries(ps2)[j] == ce);
        }
        assert(canon_entries(ps1).to_multiset().count(ce) > 0);
        assert(canon_entries(ps2).to_multiset().count(ce) > 0);
        assert forall|q: (Seq<u8>, SpecValue)| #[trigger]
            canon_entries(ps1).to_multiset().count(q) == canon_entries(
            ps2,
        ).to_multiset().count(q) by {
            assert(canon_entries(ps1).to_multiset().remove(ce).count(q) == canon_entries(
                ps2,
            ).to_multiset().remove(ce).count(q));
        }
        assert(canon_entries(ps1).to_multiset() =~= canon_entries(ps2).to_multiset());
    }
}

/// Two key-sorted entry sequences with the same content, the first with
/// distinct keys, are identical.
pub proof fn lemma_sorted_unique_entries(x: Seq<(Seq<u8>, SpecValue)>, y: Seq<
    (Seq<u8>, SpecValue),
>)
    requires
        sorted_le(x),
        sorted_le(y),
        unique_keys(x),
        x.to_multiset() == y.to_multiset(),
    ensures
        x == y,
    decreases x.len(),
{
    broadcast use vstd::seq_lib::group_to_multiset_ensures;
    broadcast use vstd::seq_lib::lemma_seq_contains;
    broadcast use vstd::multiset::group_multiset_axioms;

    if x.len() == 0 {
        assert(y.len() == y.to_multiset().len());
        assert(x =~= y);
    } else {
        assert(x.to_multiset().len() > 0);
        assert(y.len() > 0);
        assert(y.contains(y[0]));
        assert(x.to_multiset().count(y[0]) > 0);
        assert(x.contains(y[0]));
        let i = choose|i: int| 0 <= i < x.len() && x[i] == y[0];
        assert(x.contains(x[0]));
        assert(y.to_multiset().count(x[0]) > 0);
        assert(y.contains(x[0]));
        let j = choose|j: int| 0 <= j < y.len() && y[j] == x[0];
        if i > 0 {
            assert(lex_le(x[0].0, x[i].0));
            if j > 0 {
                assert(lex_le(y[0].0, y[j].0));
            } else {
                lemma_lex_le_refl(x[0].0);
            }
            assert(lex_le(y[0].0, x[0].0));
            lemma_lex_le_antisymmetric(x[0].0, y[0].0);
            assert(x[0].0 == x[i].0);
            assert(false);
        }
        assert(x[0] == y[0]);
        assert(x.drop_first() =~= x.remove(0));
        assert(y.drop_first() =~= y.remove(0));
        assert(x.remove(0).to_multiset() =~= x.to_multiset().remove(x[0]));
        assert(y.remove(0).to_multiset() =~= y.to_multiset().remove(y[0]));
        assert(sorted_le(x.drop_first())) by {
            assert forall|a: int, b: int| 0 <= a < b < x.drop_first().len() implies lex_le(
                #[trigger] x.drop_first()[a].0,
                #[trigger] x.drop_first()[b].0,
            ) by {
                assert(x.drop_first()[a] == x[a + 1] && x.drop_first()[b] == x[b + 1]);
            }
        }
        assert(sorted_le(y.drop_first())) by {
            assert forall|a: int, b: int| 0 <= a < b < y.drop_first().len() implies lex_le(
                #[trigger] y.drop_first()[a].0,
                #[trigger] y.drop_first()[b].0,
            ) by {
                assert(y.drop_first()[a] == y[a + 1] && y.drop_first()[b] == y[b + 1]);
            }
        }
        assert(unique_keys(x.drop_first())) by {
            assert forall|a: int, b: int|
                0 <= a < b < x.drop_first().len() implies #[trigger] x.drop_first()[a].0
                != #[trigger] x.drop_first()[b].0 by {
                assert(x.drop_first()[a] == x[a + 1] && x.drop_first()[b] == x[b + 1]);
            }
        }
        lemma_sorted_unique_entries(x.drop_first(), y.drop_first());
        assert(x =~= seq![x[0]] + x.drop_first());
        assert(y =~= seq![y[0]] + y.drop_first());
    }
}

/// Canonical encoding is order-independent: the same dictionary content,
/// entered in any order, yields byte-identical output, its keys sorted
/// ascending.
pub proof fn lemma_encode_order_independent(ps1: Seq<(Seq<u8>, SpecValue)>, ps2: Seq<
    (Seq<u8>, SpecValue),
>)
    requires
        ps1.to_multiset() == ps2.to_multiset(),
        unique_keys(ps1),
    ensures
        spec_encode(SpecValue::Dictionary(ps1)) == spec_encode(SpecValue::Dictionary(ps2)),
{
    lemma_canon_entries_multiset(ps1, ps2);
    let ce1 = canon_entries(ps1);
    let ce2 = canon_entries(ps2);
    lemma_canon_entries(ps1);
    assert(unique_keys(ce1)) by {
        assert forall|i: int, j: int| 0 <= i < j < ce1.len() implies #[trigger] ce1[i].0
            != #[trigger] ce1[j].0 by {
            assert(ce1[i].0 == ps1[i].0 && ce1[j].0 == ps1[j].0);
        }
    }
    lemma_sort_entries_props(ce1);
    lemma_sort_entries_props(ce2);
    lemma_sort_entries_unique(ce1);
    broadcast use vstd::multiset::group_multiset_axioms;

    assert(sort_entries(ce1).to_multiset() == sort_entries(ce2).to_multiset());
    lemma_sorted_unique_entries(sort_entries(ce1), sort_entries(ce2));
}

} // verus!
