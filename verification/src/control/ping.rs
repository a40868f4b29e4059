//! Answering control-plane ping requests: pulling the echo body out of a C2N request and
//! deciding which responses to send.
use vstd::prelude::*;
use vstd::std_specs::iter::IteratorSpec;
use vstd::string::{StrSliceExecFns, StringExecFns};

verus! {

/// `pat` occurs in `s` at position `i`.
pub open spec fn occurs_at(s: Seq<char>, pat: Seq<char>, i: int) -> bool {
    0 <= i && i + pat.len() <= s.len() && s.subrange(i, i + pat.len()) == pat
}

/// The first position at or after `from` where `pat` occurs in `s`.
#[verifier::opaque]
pub open spec fn first_occurrence(s: Seq<char>, pat: Seq<char>, from: int) -> Option<int> {
    if exists|i: int| from <= i && #[trigger] occurs_at(s, pat, i) {
        Some(
            choose|i: int|
                from <= i && #[trigger] occurs_at(s, pat, i) && forall|j: int|
                    from <= j < i ==> !occurs_at(s, pat, j),
        )
    } else {
        None
    }
}

/// The first piece of `s` when split at `pat`: everything before the first occurrence.
pub open spec fn first_piece(s: Seq<char>, pat: Seq<char>) -> Seq<char> {
    match first_occurrence(s, pat, 0) {
        Some(i) => s.subrange(0, i),
        None => s,
    }
}

/// The second piece of `s` when split at `pat`: what follows the first occurrence, up to the
/// next occurrence; `None` if `pat` does not occur.
pub open spec fn second_piece(s: Seq<char>, pat: Seq<char>) -> Option<Seq<char>> {
    match first_occurrence(s, pat, 0) {
        Some(i) => Some(first_piece(s.subrange(i + pat.len(), s.len() as int), pat)),
        None => None,
    }
}

/// The value of a hexadecimal digit.
pub open spec fn hex_digit(c: char) -> Option<nat> {
    if '0' <= c <= '9' {
        Some((c as nat - '0' as nat) as nat)
    } else if 'a' <= c <= 'f' {
        Some((c as nat - 'a' as nat + 10) as nat)
    } else if 'A' <= c <= 'F' {
        Some((c as nat - 'A' as nat + 10) as nat)
    } else {
        None
    }
}

/// The value of a sequence of hexadecimal digits, most significant first.
pub open spec fn hex_value(s: Seq<char>) -> nat
    decreases s.len(),
{
    if s.len() == 0 {
        0
    } else {
        hex_value(s.drop_last()) * 16 + hex_digit(s.last()).unwrap_or(0)
    }
}

/// The digits of an unsigned number: `s` without a leading `+`.
pub open spec fn unsigned_digits(s: Seq<char>) -> Seq<char> {
    if s.len() > 0 && s[0] == '+' {
        s.drop_first()
    } else {
        s
    }
}

/// Parsing `s` as an unsigned hexadecimal `usize`: an optional leading `+`, then at least
/// one hexadecimal digit, and a value that fits.
pub open spec fn parse_hex_usize(s: Seq<char>) -> Option<usize> {
    let digits = unsigned_digits(s);
    if digits.len() == 0 || exists|i: int| 0 <= i < digits.len() && #[trigger] hex_digit(digits[i]) is None {
        None
    } else if hex_value(digits) > usize::MAX {
        None
    } else {
        Some(hex_value(digits) as usize)
    }
}

/// The base-16 digit for `d` (below 16): `0`-`9`, then `a`-`f`, or `A`-`F` if `upper`.
pub open spec fn base16_char(d: nat, upper: bool) -> char {
    if d == 0 { '0' }
    else if d == 1 { '1' }
    else if d == 2 { '2' }
    else if d == 3 { '3' }
    else if d == 4 { '4' }
    else if d == 5 { '5' }
    else if d == 6 { '6' }
    else if d == 7 { '7' }
    else if d == 8 { '8' }
    else if d == 9 { '9' }
    else if d == 10 { if upper { 'A' } else { 'a' } }
    else if d == 11 { if upper { 'B' } else { 'b' } }
    else if d == 12 { if upper { 'C' } else { 'c' } }
    else if d == 13 { if upper { 'D' } else { 'd' } }
    else if d == 14 { if upper { 'E' } else { 'e' } }
    else { if upper { 'F' } else { 'f' } }
}

/// `n` written in base 16, most significant digit first, without leading zeros.
pub open spec fn base16(n: nat, upper: bool) -> Seq<char>
    decreases n,
{
    if n < 16 {
        seq![base16_char(n, upper)]
    } else {
        base16(n / 16, upper).push(base16_char(n % 16, upper))
    }
}

proof fn lemma_base16_digits(n: nat, upper: bool)
    ensures
        base16(n, upper).len() >= 1,
        forall|i: int| 0 <= i < base16(n, upper).len() ==> #[trigger] hex_digit(base16(n, upper)[i]) is Some,
        base16(n, upper)[0] != '+',
        hex_value(base16(n, upper)) == n,
        n >= 1 ==> base16(n, upper) != seq!['0'],
    decreases n,
{
    if n >= 16 {
        lemma_base16_digits(n / 16, upper);
        let s = base16(n / 16, upper);
        let t = s.push(base16_char(n % 16, upper));
        assert(t.drop_last() =~= s);
        assert forall|i: int| 0 <= i < t.len() implies #[trigger] hex_digit(t[i]) is Some by {
            if i < s.len() {
                assert(t[i] == s[i]);
            }
        }
        assert(t[0] == s[0]);
        assert(t.len() >= 2);
        assert(hex_digit(base16_char(n % 16, upper)) == Some((n % 16) as nat));
        assert(hex_value(t) == hex_value(s) * 16 + (n % 16));
        assert((n / 16) * 16 + n % 16 == n);
        assert(base16(n, upper) == t);
    } else {
        let t = seq![base16_char(n, upper)];
        assert(t.drop_last() =~= Seq::<char>::empty());
        assert(hex_value(Seq::<char>::empty()) == 0);
        assert(hex_digit(base16_char(n, upper)) == Some(n));
        assert(hex_value(t) == n);
    }
}

/// Every number that fits in a `usize`, written in base 16 with lowercase or uppercase
/// digits, parses back to itself: each of `0`-`9`, `a`-`f` and `A`-`F` is a digit with its
/// usual value.
pub proof fn lemma_base16_parses_back(n: nat, upper: bool)
    requires
        n <= usize::MAX,
    ensures
        parse_hex_usize(base16(n, upper)) == Some(n as usize),
{
    lemma_base16_digits(n, upper);
    let s = base16(n, upper);
    assert(unsigned_digits(s) == s);
}

/// The separator between an HTTP message's head and its body.
pub open spec fn head_separator() -> Seq<char> {
    seq!['\r', '\n', '\r', '\n']
}

/// The separator between the parts of a chunk of a chunked body.
pub open spec fn line_separator() -> Seq<char> {
    seq!['\r', '\n']
}

/// The echo body of a C2N ping payload: the first chunk of the request's chunked body, if its
/// declared size matches its UTF-8 length and it is not the terminating chunk.
#[verifier::opaque]
pub open spec fn chunked_body(payload: Seq<char>) -> Option<Seq<char>> {
    match second_piece(payload, head_separator()) {
        None => None,
        Some(body) => {
            let size = first_piece(body, line_separator());
            if size == seq!['0'] {
                None
            } else {
                match parse_hex_usize(size) {
                    None => None,
                    Some(len) => match second_piece(body, line_separator()) {
                        None => None,
                        Some(content) => if vstd::utf8::encode_utf8(content).len() as usize == len {
                            Some(content)
                        } else {
                            None
                        },
                    },
                }
            }
        },
    }
}

proof fn lemma_first_occurrence_is_least(s: Seq<char>, pat: Seq<char>, from: int, i: int)
    requires
        from <= i,
        occurs_at(s, pat, i),
        forall|j: int| from <= j < i ==> !occurs_at(s, pat, j),
    ensures
        first_occurrence(s, pat, from) == Some(i),
{
    reveal(first_occurrence);
    assert(exists|k: int| from <= k && #[trigger] occurs_at(s, pat, k));
    let c = choose|k: int|
        from <= k && #[trigger] occurs_at(s, pat, k) && forall|j: int| from <= j < k ==> !occurs_at(s, pat, j);
    assert(exists|k: int|
        from <= k && #[trigger] occurs_at(s, pat, k) && forall|j: int| from <= j < k ==> !occurs_at(s, pat, j));
    if c < i {
    } else if c > i {
    }
}

/// A character of an occurrence of `pat`.
proof fn lemma_occurrence_chars(s: Seq<char>, pat: Seq<char>, i: int, k: int)
    requires
        occurs_at(s, pat, i),
        0 <= k < pat.len(),
    ensures
        s[i + k] == pat[k],
{
    assert(s.subrange(i, i + pat.len())[k] == s[i + k]);
}

/// The text of a chunked HTTP request for a C2N echo: `head`, a blank line, the chunk size
/// `size` in base 16, the chunk, and the terminating chunk.
pub open spec fn chunked_request(head: Seq<char>, content: Seq<char>, size: nat, upper: bool) -> Seq<char> {
    head + head_separator() + base16(size, upper) + line_separator() + content + line_separator() + seq!['0']
        + head_separator()
}

proof fn lemma_head_split(head: Seq<char>, after: Seq<char>)
    requires
        forall|i: int| !#[trigger] occurs_at(head, head_separator(), i),
        head.len() > 0 ==> head.last() != '\r' && head.last() != '\n',
    ensures
        second_piece(head + head_separator() + after, head_separator()) == Some(first_piece(after, head_separator())),
{
    let hs = head_separator();
    let p = head + hs + after;
    let hl = head.len() as int;
    assert(p.subrange(hl, hl + 4) =~= hs);
    assert forall|j: int| 0 <= j < hl implies !occurs_at(p, hs, j) by {
        lemma_no_earlier_separator(head, after, j);
    }
    lemma_first_occurrence_is_least(p, hs, 0, hl);
    assert(p.subrange(hl + 4, p.len() as int) =~= after);
}

proof fn lemma_no_earlier_separator(head: Seq<char>, after: Seq<char>, j: int)
    requires
        forall|i: int| !#[trigger] occurs_at(head, head_separator(), i),
        head.len() > 0 ==> head.last() != '\r' && head.last() != '\n',
        0 <= j < head.len(),
    ensures
        !occurs_at(head + head_separator() + after, head_separator(), j),
{
    let hs = head_separator();
    let p = head + hs + after;
    let hl = head.len() as int;
    if occurs_at(p, hs, j) {
        if j + 4 <= hl {
            assert forall|k: int| 0 <= k < 4 implies head.subrange(j, j + 4)[k] == hs[k] by {
                lemma_occurrence_chars(p, hs, j, k);
                assert(p[j + k] == head[j + k]);
            }
            assert(head.subrange(j, j + 4) =~= hs);
            assert(occurs_at(head, hs, j));
        } else {
            lemma_occurrence_chars(p, hs, j, hl - 1 - j);
            assert(p[hl - 1] == head[hl - 1]);
        }
    }
}

proof fn lemma_body_split(h: Seq<char>, content: Seq<char>)
    requires
        forall|k: int| 0 <= k < h.len() ==> #[trigger] h[k] != '\r',
        forall|i: int| 0 <= i < content.len() ==> #[trigger] content[i] != '\r' && content[i] != '\n',
        content.len() >= 1,
    ensures
        first_piece(h + line_separator() + content + line_separator() + seq!['0'] + head_separator(), head_separator())
            == h + line_separator() + content + line_separator() + seq!['0'],
{
    let hs = head_separator();
    let ls = line_separator();
    let after = h + ls + content + ls + seq!['0'] + hs;
    let hn = h.len() as int;
    let c = content.len() as int;
    let m = hn + 2 + c + 3;
    assert(after.subrange(m, m + 4) =~= hs);
    assert forall|j: int| 0 <= j < m implies !occurs_at(after, hs, j) by {
        if occurs_at(after, hs, j) {
            lemma_occurrence_chars(after, hs, j, 0);
            lemma_occurrence_chars(after, hs, j, 2);
            if j < hn {
                assert(after[j] == h[j]);
            } else if j == hn {
                assert(after[j + 2] == content[0]);
            } else if j == hn + 1 {
                assert(after[j] == '\n');
            } else if j < hn + 2 + c {
                assert(after[j] == content[j - hn - 2]);
            } else if j == hn + 2 + c {
                assert(after[j + 2] == '0');
            } else if j == hn + 3 + c {
                assert(after[j] == '\n');
            } else {
                assert(after[j] == '0');
            }
        }
    }
    lemma_first_occurrence_is_least(after, hs, 0, m);
    assert(after.subrange(0, m) =~= h + ls + content + ls + seq!['0']);
}

proof fn lemma_body_lines(h: Seq<char>, content: Seq<char>)
    requires
        forall|k: int| 0 <= k < h.len() ==> #[trigger] h[k] != '\r',
        forall|i: int| 0 <= i < content.len() ==> #[trigger] content[i] != '\r' && content[i] != '\n',
    ensures
        first_piece(h + line_separator() + content + line_separator() + seq!['0'], line_separator()) == h,
        second_piece(h + line_separator() + content + line_separator() + seq!['0'], line_separator())
            == Some(content),
{
    let ls = line_separator();
    let body = h + ls + content + ls + seq!['0'];
    let hn = h.len() as int;
    let c = content.len() as int;
    assert(body.subrange(hn, hn + 2) =~= ls);
    assert forall|j: int| 0 <= j < hn implies !occurs_at(body, ls, j) by {
        if occurs_at(body, ls, j) {
            lemma_occurrence_chars(body, ls, j, 0);
            assert(body[j] == h[j]);
        }
    }
    lemma_first_occurrence_is_least(body, ls, 0, hn);
    assert(body.subrange(0, hn) =~= h);
    let rest = content + ls + seq!['0'];
    assert(body.subrange(hn + 2, body.len() as int) =~= rest);
    assert(rest.subrange(c, c + 2) =~= ls);
    assert forall|j: int| 0 <= j < c implies !occurs_at(rest, ls, j) by {
        if occurs_at(rest, ls, j) {
            lemma_occurrence_chars(rest, ls, j, 0);
            assert(rest[j] == content[j]);
        }
    }
    lemma_first_occurrence_is_least(rest, ls, 0, c);
    assert(rest.subrange(0, c) =~= content);
}

/// A C2N echo request whose head has no blank line (and does not end in a line break), and
/// whose chunk is non-empty text without line breaks, gives back exactly that chunk as its
/// echo body when the declared size (in base 16, lowercase or uppercase digits) is the chunk's
/// UTF-8 length, and no echo body otherwise (a size of zero marks the terminating chunk).
pub proof fn lemma_chunked_request_echoes(head: Seq<char>, content: Seq<char>, size: nat, upper: bool)
    requires
        forall|i: int| !#[trigger] occurs_at(head, head_separator(), i),
        head.len() > 0 ==> head.last() != '\r' && head.last() != '\n',
        content.len() >= 1,
        forall|i: int| 0 <= i < content.len() ==> #[trigger] content[i] != '\r' && content[i] != '\n',
        vstd::utf8::encode_utf8(content).len() <= usize::MAX,
        size <= usize::MAX,
    ensures
        chunked_body(chunked_request(head, content, size, upper)) == if size >= 1 && size
            == vstd::utf8::encode_utf8(content).len() {
            Some(content)
        } else {
            None
        },
{
    let hs = head_separator();
    let ls = line_separator();
    let h = base16(size, upper);
    lemma_base16_digits(size, upper);
    lemma_base16_parses_back(size, upper);
    assert forall|k: int| 0 <= k < h.len() implies #[trigger] h[k] != '\r' by {
        assert(hex_digit(h[k]) is Some);
    }
    if size == 0 {
        assert(h =~= seq!['0']);
    }
    let after = h + ls + content + ls + seq!['0'] + hs;
    let body = h + ls + content + ls + seq!['0'];
    assert(chunked_request(head, content, size, upper) =~= head + hs + after);
    lemma_head_split(head, after);
    lemma_body_split(h, content);
    lemma_body_lines(h, content);
    lemma_chunked_body_parts(chunked_request(head, content, size, upper), body);
}

/// The first position in `v[from..to]` where `pat` starts and ends before `to`.
fn find(v: &Vec<char>, pat: &[char], from: usize, to: usize) -> (r: Option<usize>)
    requires
        from <= to <= v@.len(),
        pat@.len() > 0,
    ensures
        r is None <==> first_occurrence(v@.subrange(from as int, to as int), pat@, 0) is None,
        r is Some ==> r.unwrap() == first_occurrence(v@.subrange(from as int, to as int), pat@, 0).unwrap()
            + from,
        r is Some ==> from <= r.unwrap() && r.unwrap() + pat@.len() <= to,
{
    let ghost s = v@.subrange(from as int, to as int);
    let m: usize = pat.len();
    let mut i: usize = from;
    while i < to
        invariant
            from <= i <= to <= v@.len(),
            s == v@.subrange(from as int, to as int),
            m == pat@.len(),
            m > 0,
            forall|j: int| 0 <= j < i - from ==> !occurs_at(s, pat@, j),
        decreases to - i,
    {
        if m <= to - i {
            let mut k: usize = 0;
            while k < m && v[i + k] == pat[k]
                invariant
                    k <= m,
                    i + m <= to <= v@.len(),
                    m == pat@.len(),
                    forall|q: int| 0 <= q < k ==> v@[i + q] == pat@[q],
                decreases m - k,
            {
                k = k + 1;
            }
            if k == m {
                proof {
                    assert(s.subrange(i - from, i - from + m) =~= pat@);
                    lemma_first_occurrence_is_least(s, pat@, 0, i - from);
                }
                return Some(i);
            }
            assert(s[i - from + k] != pat@[k as int]);
            assert(!occurs_at(s, pat@, i - from)) by {
                if occurs_at(s, pat@, i - from) {
                    assert(s.subrange(i - from, i - from + m)[k as int] == pat@[k as int]);
                }
            }
        } else {
            assert(!occurs_at(s, pat@, i - from));
        }
        i = i + 1;
    }
    assert forall|j: int| 0 <= j implies !#[trigger] occurs_at(s, pat@, j) by {
        if j >= to - from {
        }
    }
    reveal(first_occurrence);
    None
}

/// The value of the hexadecimal digit `c`, if it is one.
fn hex_digit_value(c: char) -> (r: Option<usize>)
    ensures
        r is None <==> hex_digit(c) is None,
        r is Some ==> r.unwrap() == hex_digit(c).unwrap() && r.unwrap() < 16,
{
    if '0' <= c && c <= '9' {
        Some((c as u32 - '0' as u32) as usize)
    } else if 'a' <= c && c <= 'f' {
        Some((c as u32 - 'a' as u32 + 10) as usize)
    } else if 'A' <= c && c <= 'F' {
        Some((c as u32 - 'A' as u32 + 10) as usize)
    } else {
        None
    }
}

proof fn lemma_hex_value_step(s: Seq<char>, i: int)
    requires
        0 <= i < s.len(),
    ensures
        hex_value(s.take(i + 1)) == hex_value(s.take(i)) * 16 + hex_digit(s[i]).unwrap_or(0),
{
    assert(s.take(i + 1).drop_last() =~= s.take(i));
}

proof fn lemma_hex_value_grows(s: Seq<char>, i: int)
    requires
        0 <= i <= s.len(),
    ensures
        hex_value(s.take(i)) <= hex_value(s),
    decreases s.len() - i,
{
    if i < s.len() {
        lemma_hex_value_step(s, i);
        lemma_hex_value_grows(s, i + 1);
    } else {
        assert(s.take(i) =~= s);
    }
}

/// Parses `v[from..to]` as an unsigned hexadecimal `usize`.
fn parse_hex(v: &Vec<char>, from: usize, to: usize) -> (r: Option<usize>)
    requires
        from <= to <= v@.len(),
    ensures
        r == parse_hex_usize(v@.subrange(from as int, to as int)),
{
    let ghost s = v@.subrange(from as int, to as int);
    let mut start: usize = from;
    if from < to && v[from] == '+' {
        start = from + 1;
    }
    let ghost digits = unsigned_digits(s);
    assert(digits =~= v@.subrange(start as int, to as int));
    if start == to {
        return None;
    }
    let mut acc: usize = 0;
    let mut i: usize = start;
    while i < to
        invariant
            start <= i <= to <= v@.len(),
            digits == v@.subrange(start as int, to as int),
            s == v@.subrange(from as int, to as int),
            digits == unsigned_digits(s),
            acc == hex_value(digits.take(i - start)),
            forall|j: int| 0 <= j < i - start ==> #[trigger] hex_digit(digits[j]) is Some,
        decreases to - i,
    {
        proof {
            lemma_hex_value_step(digits, i - start);
        }
        assert(digits[i - start] == v@[i as int]);
        let d = match hex_digit_value(v[i]) {
            Some(d) => d,
            None => {
                assert(hex_digit(digits[i - start]) is None);
                assert(hex_digit(unsigned_digits(s)[i - start]) is None);
                return None;
            },
        };
        let next = match acc.checked_mul(16) {
            Some(m) => m.checked_add(d),
            None => None,
        };
        match next {
            Some(a) => {
                acc = a;
            },
            None => {
                proof {
                    lemma_hex_value_grows(digits, i - start + 1);
                    assert(hex_value(digits) > usize::MAX);
                    assert(parse_hex_usize(s) is None);
                }
                return None;
            },
        }
        i = i + 1;
    }
    assert(digits.take(to - start) =~= digits);
    Some(acc)
}

/// Collects the characters of `s`.
fn chars_of(s: &str) -> (r: Vec<char>)
    ensures
        r@ == s@,
{
    broadcast use vstd::string::group_string_axioms;

    let mut it = s.chars();
    let mut v: Vec<char> = Vec::new();
    loop
        invariant
            v@ + it.remaining() == s@,
            it.decrease() is Some,
        ensures
            v@ == s@,
        decreases it.decrease()->0,
    {
        match it.next() {
            Some(c) => {
                v.push(c);
                assert(v@ + it.remaining() =~= s@);
            },
            None => {
                assert(v@ =~= s@);
                break;
            },
        }
    }
    v
}

/// Splits `v[from..to]` at `pat`: returns the end of the first piece, and the range of the
/// second piece if `pat` occurs.
fn split_pieces(v: &Vec<char>, from: usize, to: usize, pat: &[char]) -> (r: (usize, Option<(usize, usize)>))
    requires
        from <= to <= v@.len(),
        pat@.len() > 0,
    ensures
        from <= r.0 <= to,
        first_piece(v@.subrange(from as int, to as int), pat@) == v@.subrange(from as int, r.0 as int),
        r.1 is None <==> second_piece(v@.subrange(from as int, to as int), pat@) is None,
        r.1 is Some ==> r.1.unwrap().0 <= r.1.unwrap().1 <= to,
        r.1 is Some ==> second_piece(v@.subrange(from as int, to as int), pat@) == Some(
            v@.subrange(r.1.unwrap().0 as int, r.1.unwrap().1 as int),
        ),
{
    let ghost s = v@.subrange(from as int, to as int);
    let m: usize = pat.len();
    match find(v, pat, from, to) {
        None => {
            assert(s =~= v@.subrange(from as int, to as int));
            (to, None)
        },
        Some(i) => {
            let start: usize = i + m;
            let end: usize = match find(v, pat, start, to) {
                Some(j) => j,
                None => to,
            };
            proof {
                let rest = s.subrange(i - from + m, s.len() as int);
                assert(rest =~= v@.subrange(start as int, to as int));
                assert(first_piece(rest, pat@) =~= v@.subrange(start as int, end as int));
                assert(first_piece(s, pat@) =~= v@.subrange(from as int, i as int));
            }
            (i, Some((start, end)))
        },
    }
}

/// `chunked_body` in terms of the pieces it is made of.
proof fn lemma_chunked_body_parts(p: Seq<char>, body: Seq<char>)
    requires
        second_piece(p, head_separator()) == Some(body),
    ensures
        chunked_body(p) == if first_piece(body, line_separator()) == seq!['0'] {
            None
        } else {
            match parse_hex_usize(first_piece(body, line_separator())) {
                None => None,
                Some(len) => match second_piece(body, line_separator()) {
                    None => None,
                    Some(content) => if vstd::utf8::encode_utf8(content).len() as usize == len {
                        Some(content)
                    } else {
                        None
                    },
                },
            }
        },
{
    reveal(chunked_body);
}

/// A payload without a body has no chunked body.
proof fn lemma_chunked_body_without_body(p: Seq<char>)
    requires
        second_piece(p, head_separator()) is None,
    ensures
        chunked_body(p) is None,
{
    reveal(chunked_body);
}

/// Extracts the body portion of an HTTP/1.1 request with a `Transfer-Encoding` header of
/// `chunked`: the first chunk, if its declared size matches its UTF-8 length and it is not
/// the terminating chunk. Used with C2N echo requests.
pub fn extract_chunked_http_body(payload: &str) -> (r: Option<String>)
    ensures
        r is Some <==> chunked_body(payload@) is Some,
        r is Some ==> r.unwrap()@ == chunked_body(payload@).unwrap(),
{
    let v = chars_of(payload);
    let n: usize = v.len();
    let head = ['\r', '\n', '\r', '\n'];
    let line = ['\r', '\n'];
    assert(head@ == head_separator());
    assert(line@ == line_separator());
    assert(v@.subrange(0, n as int) =~= payload@);
    // Move past the method and headers; the next piece is the body.
    let (_, body) = split_pieces(&v, 0, n, &head);
    let (body_start, body_end) = match body {
        Some(range) => range,
        None => {
            proof {
                lemma_chunked_body_without_body(payload@);
            }
            return None;
        },
    };
    proof {
        lemma_chunked_body_parts(payload@, v@.subrange(body_start as int, body_end as int));
    }
    // The body is chunked: its first line holds the chunk's size, the second its content.
    let (size_end, content) = split_pieces(&v, body_start, body_end, &line);
    if size_end - body_start == 1 && v[body_start] == '0' {
        assert(v@.subrange(body_start as int, size_end as int) =~= seq!['0']);
        return None;
    }
    assert(v@.subrange(body_start as int, size_end as int) != seq!['0']);
    let len: usize = match parse_hex(&v, body_start, size_end) {
        Some(l) => l,
        None => return None,
    };
    let (content_start, content_end) = match content {
        Some(range) => range,
        None => return None,
    };
    assert(v@.subrange(content_start as int, content_end as int) =~= payload@.subrange(
        content_start as int,
        content_end as int,
    ));
    let text: &str = payload.substring_char(content_start, content_end);
    if text.len() != len {
        return None;
    }
    Some(text.to_owned())
}

/// What kind of ping the control plane asks for.
#[derive(Clone, Copy, Debug, PartialEq, Eq, Structural)]
pub enum PingKind {
    /// A control-to-node request carrying an HTTP request to echo.
    C2N,
    /// Any other kind, which is not answered.
    Other,
}

/// The responses to send for a ping request, in order, and whether the request is missing
/// the payload that a C2N ping needs (reported after the responses are sent).
pub struct PingPlan {
    /// The HTTP responses to post back to the control plane.
    pub responses: Vec<String>,
    /// A C2N ping came without a payload.
    pub missing_payload: bool,
}

/// The number of C2N pings in `kinds`.
pub open spec fn c2n_count(kinds: Seq<PingKind>) -> nat
    decreases kinds.len(),
{
    if kinds.len() == 0 {
        0
    } else {
        c2n_count(kinds.drop_last()) + if kinds.last() == PingKind::C2N { 1nat } else { 0nat }
    }
}

proof fn lemma_c2n_count_prefix(kinds: Seq<PingKind>, i: int)
    requires
        0 <= i <= kinds.len(),
    ensures
        c2n_count(kinds.take(i)) <= c2n_count(kinds),
    decreases kinds.len() - i,
{
    if i < kinds.len() {
        assert(kinds.take(i + 1).drop_last() =~= kinds.take(i));
        lemma_c2n_count_prefix(kinds, i + 1);
    } else {
        assert(kinds.take(i) =~= kinds);
    }
}

/// The response to a C2N ping with `payload`: the extracted body behind a `200 OK` status.
pub open spec fn ping_response(payload: Seq<char>) -> Option<Seq<char>> {
    match chunked_body(payload) {
        Some(body) => Some("HTTP/1.1 200 OK\r\n\r\n"@ + body),
        None => None,
    }
}

/// The answer to a C2N ping is the `200 OK` status line and a blank line, followed by exactly
/// the extracted echo body; there is no answer where there is no echo body.
pub proof fn lemma_ping_response_echoes(p: Seq<char>)
    ensures
        chunked_body(p) is None ==> ping_response(p) is None,
        chunked_body(p) is Some ==> ping_response(p) == Some(
            seq!['H', 'T', 'T', 'P', '/', '1', '.', '1', ' ', '2', '0', '0', ' ', 'O', 'K', '\r', '\n', '\r', '\n']
                + chunked_body(p).unwrap(),
        ),
{
    reveal_strlit("HTTP/1.1 200 OK\r\n\r\n");
    assert("HTTP/1.1 200 OK\r\n\r\n"@ =~= seq![
        'H', 'T', 'T', 'P', '/', '1', '.', '1', ' ', '2', '0', '0', ' ', 'O', 'K', '\r', '\n', '\r', '\n',
    ]);
}

/// The number of C2N pings among `kinds` is the number of entries equal to `C2N`.
pub proof fn lemma_c2n_count_counts(kinds: Seq<PingKind>)
    ensures
        c2n_count(kinds) == kinds.filter(|k: PingKind| k == PingKind::C2N).len(),
    decreases kinds.len(),
{
    reveal(Seq::filter);
    if kinds.len() > 0 {
        lemma_c2n_count_counts(kinds.drop_last());
    }
}

/// Decides how to answer a ping request of the given kinds: one response per C2N ping
/// (none if the payload is malformed); without a payload, the first C2N ping fails the
/// request.
pub fn plan_ping_responses(kinds: &Vec<PingKind>, payload: Option<&str>) -> (r: PingPlan)
    ensures
        payload is None ==> r.responses@.len() == 0 && r.missing_payload == (c2n_count(kinds@) > 0),
        payload is Some ==> !r.missing_payload && r.responses@.len() == match ping_response(payload.unwrap()@) {
            Some(_) => c2n_count(kinds@),
            None => 0,
        },
        payload is Some ==> forall|i: int| 0 <= i < r.responses@.len() ==> #[trigger] r.responses@[i]@
            == ping_response(payload.unwrap()@).unwrap(),
{
    let mut responses: Vec<String> = Vec::new();
    let mut i: usize = 0;
    while i < kinds.len()
        invariant
            i <= kinds@.len(),
            payload is None ==> responses@.len() == 0 && c2n_count(kinds@.take(i as int)) == 0,
            payload is Some ==> responses@.len() == match ping_response(payload.unwrap()@) {
                Some(_) => c2n_count(kinds@.take(i as int)),
                None => 0,
            },
            payload is Some ==> forall|j: int| 0 <= j < responses@.len() ==> #[trigger] responses@[j]@
                == ping_response(payload.unwrap()@).unwrap(),
        decreases kinds@.len() - i,
    {
        assert(kinds@.take(i + 1).drop_last() =~= kinds@.take(i as int));
        if kinds[i] != PingKind::C2N {
            i = i + 1;
            continue;
        }
        let p: &str = match payload {
            Some(p) => p,
            None => {
                proof {
                    lemma_c2n_count_prefix(kinds@, i + 1);
                }
                return PingPlan { responses, missing_payload: true };
            },
        };
        match extract_chunked_http_body(p) {
            Some(body) => {
                let mut resp = String::from_str("HTTP/1.1 200 OK\r\n\r\n");
                resp.append(body.as_str());
                responses.push(resp);
            },
            None => {},
        }
        i = i + 1;
    }
    assert(kinds@.take(kinds@.len() as int) =~= kinds@);
    PingPlan { responses, missing_payload: false }
}

} // verus!
