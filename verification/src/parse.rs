//! The line-record parser: a line of the feed carries a record when it has
//! the shape `<id>:<content>` with `<id>` a signed 64-bit decimal integer.
//! The content — everything from the first colon onward, colon included —
//! is normalized by rewriting each literal backslash-`n` pair to a newline.

use vstd::prelude::*;

use crate::bytes::{find_byte, lemma_find_byte};

verus! {

/// A parsed line record: a numeric identifier and its unescaped payload.
pub struct Record {
    pub id: i64,
    pub content: Vec<u8>,
}

impl View for Record {
    type V = (i64, Seq<u8>);

    open spec fn view(&self) -> (i64, Seq<u8>) {
        (self.id, self.content@)
    }
}

/// `b` is an ASCII decimal digit.
pub open spec fn is_digit(b: u8) -> bool {
    48 <= b <= 57
}

/// Every byte of `s` is a decimal digit.
pub open spec fn all_digits(s: Seq<u8>) -> bool {
    forall|i: int| 0 <= i < s.len() ==> is_digit(s[i])
}

/// Value of a string of decimal digits.
pub open spec fn dec_val(s: Seq<u8>) -> int
    decreases s.len(),
{
    if s.len() == 0 {
        0
    } else {
        dec_val(s.drop_last()) * 10 + (s.last() - 48)
    }
}

/// The integer denoted by `s` under the strict signed decimal grammar: an
/// optional `+` or `-` sign followed by one or more digits, nothing else.
pub open spec fn int_of_dec(s: Seq<u8>) -> Option<int> {
    if s.len() >= 1 && (s[0] == 43 || s[0] == 45) {
        if s.len() >= 2 && all_digits(s.drop_first()) {
            Some(if s[0] == 45 { -dec_val(s.drop_first()) } else { dec_val(s.drop_first()) })
        } else {
            None
        }
    } else if s.len() >= 1 && all_digits(s) {
        Some(dec_val(s))
    } else {
        None
    }
}

/// What `s` parses to as an `i64`: the denoted integer when it fits.
pub open spec fn spec_parse_i64(s: Seq<u8>) -> Option<i64> {
    match int_of_dec(s) {
        Some(v) => if i64::MIN <= v <= i64::MAX { Some(v as i64) } else { None },
        None => None,
    }
}

/// The value of a digit string is nonnegative.
proof fn lemma_dec_val_nonneg(s: Seq<u8>)
    requires
        all_digits(s),
    ensures
        dec_val(s) >= 0,
    decreases s.len(),
{
    if s.len() > 0 {
        assert(all_digits(s.drop_last())) by {
            assert(forall|i: int| 0 <= i < s.len() - 1 ==> s.drop_last()[i] == s[i]);
        }
        lemma_dec_val_nonneg(s.drop_last());
    }
}

/// Extending a digit string to the right can only increase its value.
proof fn lemma_dec_val_prefix(s: Seq<u8>, k: int)
    requires
        all_digits(s),
        0 <= k <= s.len(),
    ensures
        dec_val(s.take(k)) <= dec_val(s),
    decreases s.len(),
{
    if k < s.len() {
        assert(all_digits(s.drop_last())) by {
            assert(forall|i: int| 0 <= i < s.len() - 1 ==> s.drop_last()[i] == s[i]);
        }
        assert(s.take(k) =~= s.drop_last().take(k));
        lemma_dec_val_prefix(s.drop_last(), k);
        lemma_dec_val_nonneg(s.drop_last());
        assert(dec_val(s) == dec_val(s.drop_last()) * 10 + (s.last() - 48));
        assert(dec_val(s.drop_last()) * 10 >= dec_val(s.drop_last())) by {
            lemma_dec_val_nonneg(s.drop_last());
        }
    } else {
        assert(s.take(k) =~= s);
    }
}

/// Parse a strict signed decimal `i64`: an optional sign, then one or more
/// digits; rejects anything else, and values outside the `i64` range.
pub fn parse_i64(s: &[u8]) -> (r: Option<i64>)
    ensures
        r == spec_parse_i64(s@),
{
    let n = s.len();
    let (neg, start): (bool, usize) = if n >= 1 && (s[0] == 43 || s[0] == 45) {
        (s[0] == 45, 1)
    } else {
        (false, 0)
    };
    if n == start {
        return None;
    }
    // magnitude bound: 2^63 for a negative number, 2^63 - 1 otherwise
    let limit: u64 = if neg { 9223372036854775808 } else { 9223372036854775807 };
    let ghost ds: Seq<u8> = s@.skip(start as int);
    let mut acc: u64 = 0;
    let mut i: usize = start;
    while i < n
        invariant
            n == s@.len(),
            start <= i <= n,
            start < n,
            start == 0 || start == 1,
            (s@[0] == 43 || s@[0] == 45) ==> start == 1,
            (s@[0] != 43 && s@[0] != 45) ==> start == 0,
            neg == (s@[0] == 45),
            ds == s@.skip(start as int),
            limit == if neg { 9223372036854775808u64 } else { 9223372036854775807u64 },
            all_digits(ds.take(i - start)),
            acc == dec_val(ds.take(i - start)),
            acc <= limit,
        decreases n - i,
    {
        let b = s[i];
        proof {
            assert(ds[i - start] == s@[i as int]);
            if start == 1 {
                assert(ds =~= s@.drop_first());
            } else {
                assert(ds =~= s@);
            }
        }
        if b < 48 || b > 57 {
            proof {
                assert(!is_digit(ds[i - start]));
                assert(!all_digits(ds));
            }
            return None;
        }
        let d: u64 = (b - 48) as u64;
        proof {
            assert(ds.take(i + 1 - start).drop_last() =~= ds.take(i - start));
            assert(ds.take(i + 1 - start).last() == b);
            assert(all_digits(ds.take(i + 1 - start)));
        }
        if acc > limit / 10 {
            proof {
                assert(dec_val(ds.take(i + 1 - start)) == acc * 10 + d);
                assert(acc * 10 > limit);
                lemma_overflow(ds, i + 1 - start, limit);
            }
            return None;
        }
        acc = acc * 10;
        if d > limit - acc {
            proof {
                assert(dec_val(ds.take(i + 1 - start)) == acc + d);
                lemma_overflow(ds, i + 1 - start, limit);
            }
            return None;
        }
        acc = acc + d;
        i += 1;
    }
    proof {
        assert(ds.take(n - start) =~= ds);
        if start == 1 {
            assert(ds =~= s@.drop_first());
        } else {
            assert(ds =~= s@);
        }
    }
    if neg {
        if acc == 9223372036854775808 {
            Some(i64::MIN)
        } else {
            Some(-(acc as i64))
        }
    } else {
        Some(acc as i64)
    }
}

/// If a prefix of the digit string already exceeds the magnitude bound,
/// the whole string denotes a value outside the `i64` range.
proof fn lemma_overflow(ds: Seq<u8>, k: int, limit: u64)
    requires
        0 < k <= ds.len(),
        all_digits(ds.take(k)),
        dec_val(ds.take(k)) > limit,
        limit >= 9223372036854775807,
    ensures
        all_digits(ds) ==> dec_val(ds) > limit,
{
    if all_digits(ds) {
        lemma_dec_val_prefix(ds, k);
    }
}

/// `content` with every literal backslash-`n` pair replaced by a newline,
/// scanning left to right over non-overlapping pairs.
pub open spec fn spec_unescape(s: Seq<u8>) -> Seq<u8>
    decreases s.len(),
{
    if s.len() >= 2 && s[0] == 92 && s[1] == 110 {
        seq![10u8] + spec_unescape(s.skip(2))
    } else if s.len() >= 1 {
        seq![s[0]] + spec_unescape(s.skip(1))
    } else {
        Seq::empty()
    }
}

/// What an external writer produces from raw content: each newline
/// re-escaped to a literal backslash-`n` pair.
pub open spec fn spec_escape(s: Seq<u8>) -> Seq<u8>
    decreases s.len(),
{
    if s.len() == 0 {
        Seq::empty()
    } else if s[0] == 10 {
        seq![92u8, 110u8] + spec_escape(s.drop_first())
    } else {
        seq![s[0]] + spec_escape(s.drop_first())
    }
}

/// `s` contains the two-byte sequence backslash-`n` somewhere.
pub open spec fn has_escape_pair(s: Seq<u8>) -> bool {
    exists|i: int| #![trigger s[i]] 0 <= i && i + 1 < s.len() && s[i] == 92 && s[i + 1] == 110
}

/// Clean up escaped input: rewrite each literal backslash-`n` pair in the
/// line to a single newline byte.
pub fn cleanup2(line: &[u8]) -> (r: Vec<u8>)
    ensures
        r@ == spec_unescape(line@),
{
    let n = line.len();
    let mut out: Vec<u8> = Vec::new();
    let mut i: usize = 0;
    proof {
        assert(line@.skip(0) =~= line@);
        assert(Seq::<u8>::empty() + spec_unescape(line@) =~= spec_unescape(line@));
    }
    while i < n
        invariant
            n == line@.len(),
            i <= n,
            spec_unescape(line@) == out@ + spec_unescape(line@.skip(i as int)),
        decreases n - i,
    {
        if i + 1 < n && line[i] == 92 && line[i + 1] == 110 {
            out.push(10);
            proof {
                assert(line@.skip(i as int)[0] == 92 && line@.skip(i as int)[1] == 110);
                assert(line@.skip(i as int).skip(2) =~= line@.skip(i + 2));
            }
            i += 2;
        } else {
            let b = line[i];
            out.push(b);
            proof {
                assert(line@.skip(i as int)[0] == b);
                if line@.skip(i as int).len() >= 2 && b == 92 {
                    assert(line@.skip(i as int)[1] == line@[i + 1]);
                }
                assert(line@.skip(i as int).skip(1) =~= line@.skip(i + 1));
            }
            i += 1;
        }
    }
    proof {
        assert(line@.skip(n as int) =~= Seq::<u8>::empty());
    }
    out
}

/// Unescaping is the identity on text that holds no backslash-`n` pair.
pub proof fn lemma_unescape_id(s: Seq<u8>)
    requires
        !has_escape_pair(s),
    ensures
        spec_unescape(s) == s,
    decreases s.len(),
{
    if s.len() == 0 {
        assert(spec_unescape(s) =~= s);
    } else {
        if s.len() >= 2 && s[0] == 92 && s[1] == 110 {
            assert(has_escape_pair(s)) by {
                assert(0 <= 0int && 0int + 1 < s.len() && s[0int] == 92 && s[0int + 1] == 110);
            }
        }
        assert(!has_escape_pair(s.skip(1))) by {
            if has_escape_pair(s.skip(1)) {
                let i = choose|i: int|
                    #![trigger s.skip(1)[i]]
                    0 <= i && i + 1 < s.skip(1).len() && s.skip(1)[i] == 92 && s.skip(1)[i + 1]
                        == 110;
                assert(s[i + 1] == 92 && s[i + 2] == 110);
                assert(has_escape_pair(s));
            }
        }
        lemma_unescape_id(s.skip(1));
        assert(spec_unescape(s) =~= s);
    }
}

/// Round trip: re-escaping real newlines and then unescaping restores the
/// original content exactly, for content with no literal backslash-`n`
/// pair of its own.
pub proof fn lemma_escape_unescape(s: Seq<u8>)
    requires
        !has_escape_pair(s),
    ensures
        spec_unescape(spec_escape(s)) == s,
    decreases s.len(),
{
    if s.len() == 0 {
        assert(spec_unescape(spec_escape(s)) =~= s);
    } else {
        let rest = s.drop_first();
        assert(!has_escape_pair(rest)) by {
            if has_escape_pair(rest) {
                let i = choose|i: int|
                    #![trigger rest[i]]
                    0 <= i && i + 1 < rest.len() && rest[i] == 92 && rest[i + 1] == 110;
                assert(s[i + 1] == 92 && s[i + 2] == 110);
                assert(has_escape_pair(s));
            }
        }
        lemma_escape_unescape(rest);
        if s[0] == 10 {
            let e = spec_escape(s);
            assert(e == seq![92u8, 110u8] + spec_escape(rest));
            assert(e[0] == 92 && e[1] == 110);
            assert(e.skip(2) =~= spec_escape(rest));
            assert(spec_unescape(e) == seq![10u8] + spec_unescape(spec_escape(rest)));
            assert(spec_unescape(spec_escape(s)) =~= s);
        } else {
            let e = spec_escape(s);
            assert(e == seq![s[0]] + spec_escape(rest));
            assert(e[0] == s[0]);
            // the head never starts a backslash-`n` pair: the byte after it
            // is either a re-escaped backslash or a content byte other
            // than `n`
            if e.len() >= 2 && e[0] == 92 && e[1] == 110 {
                assert(spec_escape(rest).len() >= 1);
                assert(e[1] == spec_escape(rest)[0]);
                if rest.len() > 0 && rest[0] == 10 {
                    assert(spec_escape(rest)[0] == 92);
                } else {
                    assert(rest.len() > 0);
                    assert(spec_escape(rest)[0] == rest[0]);
                    assert(s[0] == 92 && s[1] == 110);
                    assert(has_escape_pair(s)) by {
                        assert(0 <= 0int && 0int + 1 < s.len() && s[0int] == 92 && s[0int + 1] == 110);
                    }
                }
            }
            assert(e.skip(1) =~= spec_escape(rest));
            assert(spec_unescape(e) == seq![s[0]] + spec_unescape(spec_escape(rest)));
            assert(spec_unescape(spec_escape(s)) =~= s);
        }
    }
}

/// `i` is the index of the first colon in `line`.
pub open spec fn is_first_colon(line: Seq<u8>, i: int) -> bool {
    0 <= i < line.len() && line[i] == 58 && (forall|k: int| 0 <= k < i ==> line[k] != 58)
}

/// What `parseline` yields on a line, as a mathematical value: the id
/// before the first colon and the unescaped content from the colon onward.
pub open spec fn spec_parseline(line: Seq<u8>) -> Option<(i64, Seq<u8>)> {
    match find_byte(line, 58) {
        Some(i) => match spec_parse_i64(line.take(i)) {
            Some(v) => Some((v, spec_unescape(line.skip(i)))),
            None => None,
        },
        None => None,
    }
}

/// Parse the line into an id/content record.
///
/// The line carries a record exactly when it has a colon and the bytes
/// before the first colon form a valid signed 64-bit decimal integer; the
/// record's content is everything from that colon onward, colon retained,
/// with each literal backslash-`n` pair rewritten to a newline.
pub fn parseline(line: &[u8]) -> (r: Option<Record>)
    ensures
        match r {
            Some(rec) => spec_parseline(line@) == Some(rec@),
            None => spec_parseline(line@) is None,
        },
        (forall|k: int| 0 <= k < line@.len() ==> line@[k] != 58) ==> r is None,
        forall|i: int|
            is_first_colon(line@, i) && spec_parse_i64(line@.take(i)) is None ==> r is None,
        forall|i: int|
            #[trigger] is_first_colon(line@, i) && spec_parse_i64(line@.take(i)) is Some ==> (
            r matches Some(rec) && rec.id == spec_parse_i64(line@.take(i)).unwrap()
                && rec.content@ == spec_unescape(line@.skip(i))),
{
    proof {
        lemma_find_byte(line@, 58);
    }
    let n = line.len();
    let mut pos: usize = 0;
    while pos < n && line[pos] != 58
        invariant
            n == line@.len(),
            pos <= n,
            forall|k: int| 0 <= k < pos ==> line@[k] != 58,
        decreases n - pos,
    {
        pos += 1;
    }
    if pos == n {
        // no colon: the line is not a record
        return None;
    }
    proof {
        assert(find_byte(line@, 58) == Some(pos as int));
        assert(forall|i: int| is_first_colon(line@, i) ==> i == pos as int);
    }
    let id = match parse_i64(&line[0..pos]) {
        Some(v) => v,
        None => {
            proof {
                assert(line@.subrange(0, pos as int) =~= line@.take(pos as int));
            }
            return None;
        },
    };
    proof {
        assert(line@.subrange(0, pos as int) =~= line@.take(pos as int));
        assert(line@.subrange(pos as int, n as int) =~= line@.skip(pos as int));
    }
    let content = cleanup2(&line[pos..n]);
    Some(Record { id, content })
}

} // verus!
