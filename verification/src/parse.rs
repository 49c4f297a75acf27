use vstd::prelude::*;
use vstd::string::StringSliceAdditionalSpecFns;

verus! {

/// Parsing failed: `index` is the position of the first comma-separated
/// token that does not read as a 32-bit signed integer.
#[derive(Clone, Copy, Debug, PartialEq, Eq, Structural)]
pub struct ParseError {
    pub index: usize,
}

/// A single-byte whitespace character: space, or tab through carriage
/// return. The remaining Unicode whitespace characters take two or three
/// UTF-8 bytes; see `ws_len_at_front` and `ws_len_at_back`.
pub open spec fn is_ws_byte(c: u8) -> bool {
    c == 0x20 || (0x09 <= c && c <= 0x0d)
}

/// The length in bytes of the Unicode whitespace character that the UTF-8
/// byte string `s` starts with, or 0 when it starts with none. The cases
/// cover every character with the White_Space property: U+0009..U+000D and
/// U+0020 (one byte); U+0085 and U+00A0 (two bytes); U+1680, U+2000..U+200A,
/// U+2028, U+2029, U+202F, U+205F and U+3000 (three bytes).
pub open spec fn ws_len_at_front(s: Seq<u8>) -> int {
    if s.len() >= 1 && is_ws_byte(s[0]) {
        1
    } else if s.len() >= 2 && s[0] == 0xc2 && (s[1] == 0x85 || s[1] == 0xa0) {
        2
    } else if s.len() >= 3 && s[0] == 0xe1 && s[1] == 0x9a && s[2] == 0x80 {
        3
    } else if s.len() >= 3 && s[0] == 0xe2 && s[1] == 0x80 && ((0x80 <= s[2] && s[2] <= 0x8a)
        || s[2] == 0xa8 || s[2] == 0xa9 || s[2] == 0xaf) {
        3
    } else if s.len() >= 3 && s[0] == 0xe2 && s[1] == 0x81 && s[2] == 0x9f {
        3
    } else if s.len() >= 3 && s[0] == 0xe3 && s[1] == 0x80 && s[2] == 0x80 {
        3
    } else {
        0
    }
}

/// The length in bytes of the Unicode whitespace character that the UTF-8
/// byte string `s` ends with, or 0 when it ends with none; the same
/// character set as `ws_len_at_front`. In valid UTF-8 a lead byte never
/// doubles as a continuation byte, so matching the trailing bytes finds
/// exactly the last character.
pub open spec fn ws_len_at_back(s: Seq<u8>) -> int {
    if s.len() >= 1 && is_ws_byte(s[s.len() - 1]) {
        1
    } else if s.len() >= 2 && s[s.len() - 2] == 0xc2 && (s[s.len() - 1] == 0x85 || s[s.len()
        - 1] == 0xa0) {
        2
    } else if s.len() >= 3 && s[s.len() - 3] == 0xe1 && s[s.len() - 2] == 0x9a && s[s.len()
        - 1] == 0x80 {
        3
    } else if s.len() >= 3 && s[s.len() - 3] == 0xe2 && s[s.len() - 2] == 0x80 && ((0x80 <= s[
        s.len() - 1] && s[s.len() - 1] <= 0x8a) || s[s.len() - 1] == 0xa8 || s[s.len() - 1]
        == 0xa9 || s[s.len() - 1] == 0xaf) {
        3
    } else if s.len() >= 3 && s[s.len() - 3] == 0xe2 && s[s.len() - 2] == 0x81 && s[s.len()
        - 1] == 0x9f {
        3
    } else if s.len() >= 3 && s[s.len() - 3] == 0xe3 && s[s.len() - 2] == 0x80 && s[s.len()
        - 1] == 0x80 {
        3
    } else {
        0
    }
}

pub open spec fn is_digit_byte(c: u8) -> bool {
    0x30 <= c && c <= 0x39
}

pub open spec fn all_digits(s: Seq<u8>) -> bool {
    forall|i: int| 0 <= i < s.len() ==> is_digit_byte(#[trigger] s[i])
}

/// The number a string of decimal digits denotes.
pub open spec fn digits_val(s: Seq<u8>) -> int
    decreases s.len(),
{
    if s.len() == 0 {
        0
    } else {
        digits_val(s.drop_last()) * 10 + (s.last() - 0x30)
    }
}

/// The token without its optional single leading sign.
pub open spec fn digits_part(s: Seq<u8>) -> Seq<u8> {
    if s.len() > 0 && (s[0] == 0x2b || s[0] == 0x2d) {
        s.skip(1)
    } else {
        s
    }
}

pub open spec fn is_negative_token(s: Seq<u8>) -> bool {
    s.len() > 0 && s[0] == 0x2d
}

/// The signed value a token denotes (meaningful when the token is valid).
pub open spec fn token_value(s: Seq<u8>) -> int {
    if is_negative_token(s) {
        -digits_val(digits_part(s))
    } else {
        digits_val(digits_part(s))
    }
}

/// A token reads as an i32: an optional sign, then at least one digit and
/// nothing else, and the value fits in 32 signed bits.
pub open spec fn is_i32_token(s: Seq<u8>) -> bool {
    &&& digits_part(s).len() > 0
    &&& all_digits(digits_part(s))
    &&& i32::MIN <= token_value(s) <= i32::MAX
}

/// Leading Unicode whitespace removed, character by character.
pub open spec fn trim_front(s: Seq<u8>) -> Seq<u8>
    decreases s.len(),
{
    if ws_len_at_front(s) > 0 {
        trim_front(s.skip(ws_len_at_front(s)))
    } else {
        s
    }
}

/// Trailing Unicode whitespace removed, character by character.
pub open spec fn trim_back(s: Seq<u8>) -> Seq<u8>
    decreases s.len(),
{
    if ws_len_at_back(s) > 0 {
        trim_back(s.take(s.len() - ws_len_at_back(s)))
    } else {
        s
    }
}

pub open spec fn trimmed(s: Seq<u8>) -> Seq<u8> {
    trim_back(trim_front(s))
}

proof fn lemma_digits_val_bounds(s: Seq<u8>)
    requires
        all_digits(s),
    ensures
        digits_val(s) >= 0,
    decreases s.len(),
{
    if s.len() > 0 {
        assert(all_digits(s.drop_last())) by {
            assert(forall|i: int|
                0 <= i < s.len() - 1 ==> is_digit_byte(#[trigger] s.drop_last()[i]));
        }
        lemma_digits_val_bounds(s.drop_last());
    }
}

/// The value of a digit string is at least the value of any of its prefixes.
proof fn lemma_digits_val_prefix_le(s: Seq<u8>, m: int)
    requires
        all_digits(s),
        0 <= m <= s.len(),
    ensures
        digits_val(s.take(m)) <= digits_val(s),
    decreases s.len() - m,
{
    if m == s.len() {
        assert(s.take(m) =~= s);
    } else {
        lemma_digits_val_prefix_le(s, m + 1);
        assert(s.take(m + 1).drop_last() =~= s.take(m));
        assert(all_digits(s.take(m + 1)));
        lemma_digits_val_bounds(s.take(m + 1));
        lemma_digits_val_bounds(s.take(m + 1).drop_last());
        assert(digits_val(s.take(m + 1)) == digits_val(s.take(m)) * 10 + (s[m] - 0x30));
    }
}

/// Reads a whole byte string as a decimal i32: an optional `+` or `-` sign,
/// then one or more digits, nothing else, value within i32's range.
pub fn parse_int_bytes(t: &[u8]) -> (r: Option<i32>)
    ensures
        r is Some <==> is_i32_token(t@),
        r matches Some(v) ==> v as int == token_value(t@),
{
    let len = t.len();
    let mut neg = false;
    let mut start: usize = 0;
    if len > 0 && (t[0] == 0x2b || t[0] == 0x2d) {
        neg = t[0] == 0x2d;
        start = 1;
    }
    proof {
        if start == 0 {
            assert(digits_part(t@) =~= t@.skip(0));
        }
        assert(digits_part(t@) == t@.skip(start as int));
    }
    if start >= len {
        // no digits at all
        return None;
    }
    let ghost d = t@.skip(start as int);
    let limit: u64 = if neg {
        2147483648
    } else {
        2147483647
    };
    let mut acc: u64 = 0;
    let mut i = start;
    while i < len
        invariant
            start <= i <= len,
            len == t@.len(),
            start <= 1,
            d == t@.skip(start as int),
            d == digits_part(t@),
            neg == is_negative_token(t@),
            limit == if neg { 2147483648int } else { 2147483647int },
            forall|a: int| start <= a < i ==> is_digit_byte(#[trigger] t@[a]),
            acc == digits_val(t@.subrange(start as int, i as int)),
            acc <= limit,
        decreases len - i,
    {
        let c = t[i];
        if c < 0x30 || c > 0x39 {
            // a non-digit: the token is malformed
            assert(d[i - start as int] == t@[i as int]);
            assert(!is_digit_byte(d[i - start as int]));
            return None;
        }
        proof {
            assert(t@.subrange(start as int, i + 1).drop_last() =~= t@.subrange(
                start as int,
                i as int,
            ));
        }
        acc = acc * 10 + ((c - 0x30) as u64);
        if acc > limit {
            // any digits that may follow can only increase the value
            proof {
                if is_i32_token(t@) {
                    let pre = i + 1 - start;
                    assert(d.take(pre) =~= t@.subrange(start as int, i + 1));
                    lemma_digits_val_prefix_le(d, pre);
                }
            }
            return None;
        }
        i += 1;
    }
    proof {
        assert(t@.subrange(start as int, len as int) =~= d);
        assert(d.len() > 0 && all_digits(d));
        assert(acc == digits_val(d));
    }
    if neg {
        if acc == 2147483648 {
            Some(i32::MIN)
        } else {
            Some(-(acc as i32))
        }
    } else {
        Some(acc as i32)
    }
}

/// The byte length of the whitespace character that `t[lo..hi]` starts
/// with, or 0 when it starts with none.
fn ws_front(t: &[u8], lo: usize, hi: usize) -> (w: usize)
    requires
        lo <= hi <= t@.len(),
    ensures
        w == ws_len_at_front(t@.subrange(lo as int, hi as int)),
        w <= hi - lo,
{
    let n = hi - lo;
    if n >= 1 {
        let c0 = t[lo];
        if c0 == 0x20 || (0x09 <= c0 && c0 <= 0x0d) {
            return 1;
        }
        if n >= 2 {
            let c1 = t[lo + 1];
            if c0 == 0xc2 && (c1 == 0x85 || c1 == 0xa0) {
                return 2;
            }
            if n >= 3 {
                let c2 = t[lo + 2];
                if c0 == 0xe1 && c1 == 0x9a && c2 == 0x80 {
                    return 3;
                }
                if c0 == 0xe2 && c1 == 0x80 && ((0x80 <= c2 && c2 <= 0x8a) || c2 == 0xa8
                    || c2 == 0xa9 || c2 == 0xaf) {
                    return 3;
                }
                if c0 == 0xe2 && c1 == 0x81 && c2 == 0x9f {
                    return 3;
                }
                if c0 == 0xe3 && c1 == 0x80 && c2 == 0x80 {
                    return 3;
                }
            }
        }
    }
    0
}

/// The byte length of the whitespace character that `t[lo..hi]` ends with,
/// or 0 when it ends with none.
fn ws_back(t: &[u8], lo: usize, hi: usize) -> (w: usize)
    requires
        lo <= hi <= t@.len(),
    ensures
        w == ws_len_at_back(t@.subrange(lo as int, hi as int)),
        w <= hi - lo,
{
    let n = hi - lo;
    if n >= 1 {
        let c0 = t[hi - 1];
        if c0 == 0x20 || (0x09 <= c0 && c0 <= 0x0d) {
            return 1;
        }
        if n >= 2 {
            let c1 = t[hi - 2];
            if c1 == 0xc2 && (c0 == 0x85 || c0 == 0xa0) {
                return 2;
            }
            if n >= 3 {
                let c2 = t[hi - 3];
                if c2 == 0xe1 && c1 == 0x9a && c0 == 0x80 {
                    return 3;
                }
                if c2 == 0xe2 && c1 == 0x80 && ((0x80 <= c0 && c0 <= 0x8a) || c0 == 0xa8
                    || c0 == 0xa9 || c0 == 0xaf) {
                    return 3;
                }
                if c2 == 0xe2 && c1 == 0x81 && c0 == 0x9f {
                    return 3;
                }
                if c2 == 0xe3 && c1 == 0x80 && c0 == 0x80 {
                    return 3;
                }
            }
        }
    }
    0
}

/// Reads a byte string as a decimal i32, ignoring surrounding Unicode
/// whitespace.
fn parse_token(tok: &[u8]) -> (r: Option<i32>)
    ensures
        r is Some <==> is_i32_token(trimmed(tok@)),
        r matches Some(v) ==> v as int == token_value(trimmed(tok@)),
{
    let len = tok.len();
    let mut lo: usize = 0;
    proof {
        assert(tok@.subrange(0, len as int) =~= tok@);
    }
    let mut w = ws_front(tok, lo, len);
    while w != 0
        invariant
            lo <= len,
            len == tok@.len(),
            w == ws_len_at_front(tok@.subrange(lo as int, len as int)),
            lo + w <= len,
            trim_front(tok@) == trim_front(tok@.subrange(lo as int, len as int)),
        decreases len - lo,
    {
        proof {
            assert(tok@.subrange(lo as int, len as int).skip(w as int) =~= tok@.subrange(
                lo + w,
                len as int,
            ));
        }
        lo += w;
        w = ws_front(tok, lo, len);
    }
    let ghost fronted = tok@.subrange(lo as int, len as int);
    proof {
        assert(trim_front(tok@) == fronted);
    }
    let mut hi: usize = len;
    let mut wb = ws_back(tok, lo, hi);
    while wb != 0
        invariant
            lo <= hi <= len,
            len == tok@.len(),
            wb == ws_len_at_back(tok@.subrange(lo as int, hi as int)),
            wb <= hi - lo,
            fronted == tok@.subrange(lo as int, len as int),
            trim_back(fronted) == trim_back(tok@.subrange(lo as int, hi as int)),
        decreases hi,
    {
        proof {
            assert(tok@.subrange(lo as int, hi as int).take(hi - lo - wb) =~= tok@.subrange(
                lo as int,
                hi - wb,
            ));
        }
        hi -= wb;
        wb = ws_back(tok, lo, hi);
    }
    proof {
        assert(trimmed(tok@) == tok@.subrange(lo as int, hi as int));
    }
    parse_int_bytes(&tok[lo..hi])
}

/// The comma-separated segments of a byte string, in order. An input without
/// commas is one segment; each comma ends a segment, so the number of
/// segments is one more than the number of commas.
pub open spec fn split_commas(s: Seq<u8>) -> Seq<Seq<u8>>
    decreases s.len(),
{
    if s.len() == 0 {
        seq![Seq::<u8>::empty()]
    } else if s[0] == 0x2c {
        seq![Seq::<u8>::empty()] + split_commas(s.skip(1))
    } else {
        let rest = split_commas(s.skip(1));
        seq![seq![s[0]] + rest[0]] + rest.skip(1)
    }
}

proof fn lemma_split_commas_len(s: Seq<u8>)
    ensures
        split_commas(s).len() >= 1,
    decreases s.len(),
{
    if s.len() > 0 {
        lemma_split_commas_len(s.skip(1));
    }
}

/// When the first comma of `s` stands at position `c` (or `s` holds none and
/// `c` is its length), the first segment is `s.take(c)` and the rest of the
/// segments are those of what follows that comma.
proof fn lemma_split_commas_first(s: Seq<u8>, c: int)
    requires
        0 <= c <= s.len(),
        forall|i: int| 0 <= i < c ==> s[i] != 0x2c,
        c < s.len() ==> s[c] == 0x2c,
    ensures
        c == s.len() ==> split_commas(s) == seq![s.take(c)],
        c < s.len() ==> split_commas(s) == seq![s.take(c)] + split_commas(s.skip(c + 1)),
    decreases c,
{
    lemma_split_commas_len(s.skip(1));
    if c == 0 {
        if s.len() == 0 {
            assert(s.take(0) =~= Seq::<u8>::empty());
            assert(split_commas(s) =~= seq![s.take(0)]);
        } else {
            assert(s.take(0) =~= Seq::<u8>::empty());
            assert(split_commas(s) =~= seq![s.take(0)] + split_commas(s.skip(1)));
        }
    } else {
        lemma_split_commas_first(s.skip(1), c - 1);
        let rest = split_commas(s.skip(1));
        assert(seq![s[0]] + s.skip(1).take(c - 1) =~= s.take(c));
        if c == s.len() {
            assert(split_commas(s) =~= seq![s.take(c)]);
        } else {
            assert(s.skip(1)[c - 1] == s[c]);
            assert(s.skip(1).skip(c - 1 + 1) =~= s.skip(c + 1));
            assert(split_commas(s) =~= seq![s.take(c)] + split_commas(s.skip(c + 1)));
        }
    }
}

/// Every comma-separated token, after trimming, reads as an i32.
pub open spec fn csv_ok(s: Seq<u8>) -> bool {
    forall|i: int|
        0 <= i < split_commas(s).len() ==> is_i32_token(trimmed(#[trigger] split_commas(s)[i]))
}

/// The values the comma-separated tokens denote, in order.
pub open spec fn csv_values(s: Seq<u8>) -> Seq<int> {
    Seq::new(split_commas(s).len(), |i: int| token_value(trimmed(split_commas(s)[i])))
}

/// Parses comma-separated values from a string
///
/// Each comma-separated token is trimmed of surrounding Unicode whitespace
/// and read as a decimal i32. Succeeds exactly when every token reads that way;
/// otherwise reports the position of the first token that does not.
pub fn parse_csv_string(input: &str) -> (r: Result<Vec<i32>, ParseError>)
    ensures
        r is Ok <==> csv_ok(input.spec_bytes()),
        r matches Ok(v) ==> v@.map_values(|x: i32| x as int) == csv_values(input.spec_bytes()),
        r matches Err(e) ==> {
            &&& e.index < split_commas(input.spec_bytes()).len()
            &&& !is_i32_token(trimmed(split_commas(input.spec_bytes())[e.index as int]))
            &&& forall|i: int|
                0 <= i < e.index ==> is_i32_token(
                    trimmed(#[trigger] split_commas(input.spec_bytes())[i]),
                )
        },
{
    let bytes: &[u8] = input.as_bytes();
    let ghost full = input.spec_bytes();
    let n = bytes.len();
    let mut values: Vec<i32> = Vec::new();
    let mut pos: usize = 0;
    proof {
        assert(full.skip(0) =~= full);
        assert(split_commas(full).skip(0) =~= split_commas(full));
    }
    loop
        invariant
            full == input.spec_bytes(),
            bytes@ == full,
            n == full.len(),
            pos <= n,
            values@.len() <= split_commas(full).len(),
            split_commas(full).skip(values@.len() as int) == split_commas(
                full.skip(pos as int),
            ),
            forall|i: int|
                0 <= i < values@.len() ==> is_i32_token(
                    trimmed(#[trigger] split_commas(full)[i]),
                ),
            forall|i: int|
                0 <= i < values@.len() ==> #[trigger] values@[i] as int == token_value(
                    trimmed(split_commas(full)[i]),
                ),
        decreases n - pos,
    {
        let ghost t = values@.len() as int;
        proof {
            lemma_split_commas_len(full.skip(pos as int));
            assert(split_commas(full).skip(t).len() == split_commas(full).len() - t);
            assert(split_commas(full).len() == t + split_commas(full.skip(pos as int)).len());
        }
        let mut end = pos;
        while end < n && bytes[end] != 0x2c
            invariant
                bytes@ == full,
                n == full.len(),
                pos <= end <= n,
                forall|i: int| pos <= i < end ==> full[i] != 0x2c,
            decreases n - end,
        {
            end += 1;
        }
        proof {
            lemma_split_commas_first(full.skip(pos as int), end - pos);
            assert(full.skip(pos as int).take(end - pos) =~= full.subrange(
                pos as int,
                end as int,
            ));
            assert(split_commas(full)[t] == split_commas(full).skip(t)[0]);
            assert(split_commas(full)[t] == full.subrange(pos as int, end as int));
        }
        let parsed = parse_token(&bytes[pos..end]);
        match parsed {
            None => {
                proof {
                    assert(!is_i32_token(trimmed(split_commas(full)[t])));
                    assert(!csv_ok(full));
                }
                return Err(ParseError { index: values.len() });
            },
            Some(v) => {
                values.push(v);
            },
        }
        if end == n {
            proof {
                assert(split_commas(full).len() == t + 1);
                assert(values@.map_values(|x: i32| x as int) =~= csv_values(full));
            }
            return Ok(values);
        }
        proof {
            assert(full.skip(pos as int).skip(end - pos + 1) =~= full.skip(end + 1));
            assert((seq![full.subrange(pos as int, end as int)] + split_commas(
                full.skip(end + 1),
            )).skip(1) =~= split_commas(full.skip(end + 1)));
            assert(split_commas(full).skip(t + 1) =~= split_commas(full).skip(t).skip(1));
        }
        pos = end + 1;
    }
}

/// Reads a whole string as a decimal i32: an optional sign, then one or more
/// digits, nothing else, value within i32's range. No whitespace is ignored.
pub fn parse_i32(input: &str) -> (r: Result<i32, ParseError>)
    ensures
        r is Ok <==> is_i32_token(input.spec_bytes()),
        r matches Ok(v) ==> v as int == token_value(input.spec_bytes()),
        r matches Err(e) ==> e.index == 0,
{
    match parse_int_bytes(input.as_bytes()) {
        Some(v) => Ok(v),
        None => Err(ParseError { index: 0 }),
    }
}

} // verus!
