//! Framing codec.
//!
//! A frame on the wire is `<command> SP <payload-length> LF <payload bytes>`:
//! the command token, one space, the payload length as base-10 ASCII digits,
//! one newline, then exactly that many payload bytes. `encode` builds such a
//! frame; `decode` consumes exactly one frame from the front of a buffer and
//! never reads into the bytes of the next frame.

use vstd::prelude::*;

verus! {

/// Largest payload, in bytes, that one frame may carry (16 MiB).
pub const MAX_FRAME: usize = 16777216;

/// Largest command token length that `encode` accepts.
pub const MAX_COMMAND: usize = 64;

/// `decode` rejects a header whose newline is not within this many bytes.
pub const MAX_HEADER: usize = 80;

/// The byte separating the command token from the payload length.
pub const SPACE: u8 = 32;

/// The byte terminating a frame header.
pub const NEWLINE: u8 = 10;

/// Why a frame could not be encoded or decoded.
#[derive(Debug, Clone, Copy, PartialEq, Eq, Structural)]
pub enum FrameError {
    /// The command token is empty or contains whitespace or non-ASCII bytes.
    InvalidCommand,
    /// The payload (or command) exceeds the configured maximum frame size.
    FrameTooLarge,
    /// The header line is missing, over-long, or does not parse.
    MalformedHeader,
    /// The buffer ends before the announced payload length is reached.
    TruncatedPayload,
}

/// One decoded message: the raw command token and the opaque payload.
pub struct Message {
    pub command: Vec<u8>,
    pub payload: Vec<u8>,
}

/// Bytes allowed in a command token: printable ASCII, no whitespace.
pub open spec fn is_token_byte(b: u8) -> bool {
    32 < b < 127
}

/// A command token is non-empty and made only of token bytes.
pub open spec fn token_shaped(c: Seq<u8>) -> bool {
    c.len() > 0 && forall|i: int| 0 <= i < c.len() ==> is_token_byte(#[trigger] c[i])
}

/// The inputs for which `encode` succeeds.
pub open spec fn encodable(c: Seq<u8>, p: Seq<u8>) -> bool {
    token_shaped(c) && c.len() <= MAX_COMMAND && p.len() <= MAX_FRAME
}

/// An ASCII decimal digit.
pub open spec fn is_digit(b: u8) -> bool {
    48 <= b <= 57
}

/// A non-empty run of ASCII decimal digits.
pub open spec fn digit_seq(s: Seq<u8>) -> bool {
    s.len() > 0 && forall|i: int| 0 <= i < s.len() ==> is_digit(#[trigger] s[i])
}

/// The base-10 ASCII representation of `n`, without leading zeros.
pub open spec fn dec_rep(n: nat) -> Seq<u8>
    decreases n,
{
    if n < 10 {
        seq![(48 + n) as u8]
    } else {
        dec_rep(n / 10).push((48 + n % 10) as u8)
    }
}

/// The numeric value of a run of ASCII digits.
pub open spec fn dec_val(s: Seq<u8>) -> int
    decreases s.len(),
{
    if s.len() == 0 {
        0
    } else {
        dec_val(s.drop_last()) * 10 + (s.last() - 48)
    }
}

/// The exact bytes `encode` produces for a valid `(command, payload)` pair.
pub open spec fn spec_frame(c: Seq<u8>, p: Seq<u8>) -> Seq<u8> {
    c + seq![SPACE] + dec_rep(p.len()) + seq![NEWLINE] + p
}

/// Index of the first occurrence of `b` in `s`, if any.
pub open spec fn find_byte(s: Seq<u8>, b: u8) -> Option<int>
    decreases s.len(),
{
    if s.len() == 0 {
        Option::None
    } else if s[0] == b {
        Option::Some(0)
    } else {
        match find_byte(s.subrange(1, s.len() as int), b) {
            Option::Some(i) => Option::Some(i + 1),
            Option::None => Option::None,
        }
    }
}

/// What `decode` returns on any input buffer: either the first frame's
/// command, payload and total byte count, or the error that rejects it.
pub open spec fn spec_decode(input: Seq<u8>) -> Result<(Seq<u8>, Seq<u8>, int), FrameError> {
    match find_byte(input, NEWLINE) {
        Option::None => Err(FrameError::MalformedHeader),
        Option::Some(h) => {
            if h >= MAX_HEADER {
                Err(FrameError::MalformedHeader)
            } else {
                let header = input.subrange(0, h);
                match find_byte(header, SPACE) {
                    Option::None => Err(FrameError::MalformedHeader),
                    Option::Some(s) => {
                        let digits = header.subrange(s + 1, h);
                        if !digit_seq(digits) {
                            Err(FrameError::MalformedHeader)
                        } else if dec_val(digits) > MAX_FRAME {
                            Err(FrameError::FrameTooLarge)
                        } else if input.len() < h + 1 + dec_val(digits) {
                            Err(FrameError::TruncatedPayload)
                        } else {
                            Ok(
                                (
                                    header.subrange(0, s),
                                    input.subrange(h + 1, h + 1 + dec_val(digits)),
                                    h + 1 + dec_val(digits),
                                ),
                            )
                        }
                    },
                }
            }
        },
    }
}

/// `find_byte` returns the first position of `b`, or reports that none exists.
pub proof fn lemma_find_byte_props(s: Seq<u8>, b: u8)
    ensures
        match find_byte(s, b) {
            Option::Some(i) => 0 <= i < s.len() && s[i] == b && forall|j: int|
                0 <= j < i ==> s[j] != b,
            Option::None => forall|j: int| 0 <= j < s.len() ==> s[j] != b,
        },
    decreases s.len(),
{
    if s.len() == 0 {
    } else if s[0] == b {
    } else {
        let t = s.subrange(1, s.len() as int);
        lemma_find_byte_props(t, b);
        match find_byte(t, b) {
            Option::Some(i) => {
                assert(t[i] == s[i + 1]);
                assert forall|j: int| 0 <= j < i + 1 implies s[j] != b by {
                    if j > 0 {
                        assert(t[j - 1] == s[j]);
                    }
                }
            },
            Option::None => {
                assert forall|j: int| 0 <= j < s.len() implies s[j] != b by {
                    if j > 0 {
                        assert(t[j - 1] == s[j]);
                    }
                }
            },
        }
    }
}

/// A position of `b` with nothing equal to `b` before it is what `find_byte` finds.
pub proof fn lemma_find_byte_witness(s: Seq<u8>, b: u8, i: int)
    requires
        0 <= i < s.len(),
        s[i] == b,
        forall|j: int| 0 <= j < i ==> s[j] != b,
    ensures
        find_byte(s, b) == Option::Some(i),
{
    lemma_find_byte_props(s, b);
    match find_byte(s, b) {
        Option::Some(k) => {
            if k < i {
                assert(s[k] != b);
            }
            if k > i {
                assert(s[i] != b);
            }
        },
        Option::None => {
            assert(s[i] != b);
        },
    }
}

/// Copies `v[a..b]` into a fresh vector.
pub(crate) fn subvec(v: &Vec<u8>, a: usize, b: usize) -> (r: Vec<u8>)
    requires
        a <= b <= v.len(),
    ensures
        r@ == v@.subrange(a as int, b as int),
{
    let mut r: Vec<u8> = Vec::new();
    let mut k: usize = a;
    while k < b
        invariant
            a <= k <= b <= v.len(),
            r@ == v@.subrange(a as int, k as int),
        decreases b - k,
    {
        r.push(v[k]);
        proof {
            assert(v@.subrange(a as int, k + 1 as int) =~= v@.subrange(a as int, k as int).push(
                v@[k as int],
            ));
        }
        k = k + 1;
    }
    r
}

/// Powers of ten, for bounding the length of decimal representations.
pub open spec fn pow10(k: nat) -> nat
    decreases k,
{
    if k == 0 {
        1
    } else {
        10 * pow10((k - 1) as nat)
    }
}

/// The decimal representation of any number is a non-empty digit run.
pub proof fn lemma_dec_rep_digits(n: nat)
    ensures
        digit_seq(dec_rep(n)),
    decreases n,
{
    if n < 10 {
    } else {
        lemma_dec_rep_digits(n / 10);
        let r = dec_rep(n / 10);
        let d = (48 + n % 10) as u8;
        assert forall|i: int| 0 <= i < r.push(d).len() implies is_digit(r.push(d)[i]) by {
            if i < r.len() {
                assert(r.push(d)[i] == r[i]);
            }
        }
    }
}

/// Reading the decimal representation of `n` back gives `n`.
pub proof fn lemma_dec_rep_val(n: nat)
    ensures
        dec_val(dec_rep(n)) == n,
    decreases n,
{
    if n < 10 {
        let s = dec_rep(n);
        assert(s.drop_last() =~= Seq::<u8>::empty());
        assert(dec_val(Seq::<u8>::empty()) == 0);
        assert(s.last() == (48 + n) as u8);
        assert(dec_val(s) == dec_val(s.drop_last()) * 10 + (s.last() - 48));
    } else {
        lemma_dec_rep_val(n / 10);
        let r = dec_rep(n / 10);
        let d = (48 + n % 10) as u8;
        assert(r.push(d).drop_last() =~= r);
        assert(r.push(d).last() == d);
    }
}

/// A number below `pow10(k)` has at most `k` decimal digits.
pub proof fn lemma_dec_rep_len(n: nat, k: nat)
    requires
        k >= 1,
        n < pow10(k),
    ensures
        dec_rep(n).len() <= k,
    decreases n,
{
    if n < 10 {
    } else {
        if k == 1 {
            assert(pow10(0) == 1);
            assert(pow10(1) == 10);
            assert(false);
        }
        assert(n < 10 * pow10((k - 1) as nat));
        assert(n / 10 < pow10((k - 1) as nat)) by (nonlinear_arith)
            requires
                n < 10 * pow10((k - 1) as nat),
        ;
        lemma_dec_rep_len(n / 10, (k - 1) as nat);
    }
}

/// A digit run's value is at least the value of any of its prefixes.
pub proof fn lemma_dec_val_prefix(s: Seq<u8>, k: int)
    requires
        0 <= k <= s.len(),
        forall|i: int| 0 <= i < s.len() ==> is_digit(#[trigger] s[i]),
    ensures
        dec_val(s) >= dec_val(s.subrange(0, k)),
        dec_val(s) >= 0,
    decreases s.len(),
{
    if s.len() == 0 {
        assert(s.subrange(0, k) =~= s);
    } else if k == s.len() {
        assert(s.subrange(0, k) =~= s);
        lemma_dec_val_prefix(s.drop_last(), s.len() - 1);
    } else {
        let t = s.drop_last();
        lemma_dec_val_prefix(t, k);
        assert(t.subrange(0, k) =~= s.subrange(0, k));
        assert(is_digit(s.last()));
    }
}

/// The decimal digits of `n`, most significant first.
fn dec_digits(n: usize) -> (r: Vec<u8>)
    ensures
        r@ == dec_rep(n as nat),
    decreases n,
{
    if n < 10 {
        let mut r: Vec<u8> = Vec::new();
        r.push(48 + n as u8);
        proof {
            assert(r@ =~= dec_rep(n as nat));
        }
        r
    } else {
        let mut r = dec_digits(n / 10);
        r.push(48 + (n % 10) as u8);
        r
    }
}

/// Encodes one message as a frame.
///
/// Succeeds exactly on the inputs `encodable` describes and then returns
/// exactly the bytes of `spec_frame`; a command with whitespace, newline or
/// non-ASCII bytes is rejected as `InvalidCommand`, and an over-long command
/// or payload as `FrameTooLarge`.
pub fn encode(command: &Vec<u8>, payload: &Vec<u8>) -> (r: Result<Vec<u8>, FrameError>)
    ensures
        match r {
            Ok(bytes) => encodable(command@, payload@) && bytes@ == spec_frame(
                command@,
                payload@,
            ),
            Err(FrameError::InvalidCommand) => !token_shaped(command@),
            Err(FrameError::FrameTooLarge) => token_shaped(command@) && (command@.len()
                > MAX_COMMAND || payload@.len() > MAX_FRAME),
            Err(_) => false,
        },
{
    if command.len() == 0 {
        return Err(FrameError::InvalidCommand);
    }
    let mut i: usize = 0;
    while i < command.len()
        invariant
            i <= command.len(),
            forall|j: int| 0 <= j < i ==> is_token_byte(#[trigger] command@[j]),
        decreases command.len() - i,
    {
        let b = command[i];
        if !(b > 32 && b < 127) {
            proof {
                assert(!is_token_byte(command@[i as int]));
            }
            return Err(FrameError::InvalidCommand);
        }
        i = i + 1;
    }
    if command.len() > MAX_COMMAND || payload.len() > MAX_FRAME {
        return Err(FrameError::FrameTooLarge);
    }
    let mut out: Vec<u8> = Vec::new();
    let mut i: usize = 0;
    while i < command.len()
        invariant
            i <= command.len(),
            out@ == command@.subrange(0, i as int),
        decreases command.len() - i,
    {
        out.push(command[i]);
        proof {
            assert(command@.subrange(0, i + 1 as int) =~= command@.subrange(0, i as int).push(
                command@[i as int],
            ));
        }
        i = i + 1;
    }
    proof {
        assert(command@.subrange(0, command@.len() as int) =~= command@);
    }
    out.push(SPACE);
    let mut digits = dec_digits(payload.len());
    out.append(&mut digits);
    out.push(NEWLINE);
    let ghost head = command@ + seq![SPACE] + dec_rep(payload@.len()) + seq![NEWLINE];
    proof {
        assert(out@ =~= head);
    }
    let mut i: usize = 0;
    while i < payload.len()
        invariant
            i <= payload.len(),
            out@ == head + payload@.subrange(0, i as int),
        decreases payload.len() - i,
    {
        out.push(payload[i]);
        proof {
            assert(payload@.subrange(0, i + 1 as int) =~= payload@.subrange(0, i as int).push(
                payload@[i as int],
            ));
            assert((head + payload@.subrange(0, i as int)).push(payload@[i as int]) =~= head
                + payload@.subrange(0, i + 1 as int));
        }
        i = i + 1;
    }
    proof {
        assert(payload@.subrange(0, payload@.len() as int) =~= payload@);
        assert(out@ =~= spec_frame(command@, payload@));
    }
    Ok(out)
}

/// Decodes exactly one frame from the front of `input`.
///
/// On success returns the message and the number of bytes the frame occupies,
/// so the next frame starts right after them; the result is exactly what
/// `spec_decode` states for every input, success and each error alike.
pub fn decode(input: &Vec<u8>) -> (r: Result<(Message, usize), FrameError>)
    ensures
        match r {
            Ok(p) => spec_decode(input@) == Ok::<(Seq<u8>, Seq<u8>, int), FrameError>(
                (p.0.command@, p.0.payload@, p.1 as int),
            ) && p.1 <= input.len(),
            Err(e) => spec_decode(input@) == Err::<(Seq<u8>, Seq<u8>, int), FrameError>(e),
        },
{
    let n = input.len();
    let limit = if n < MAX_HEADER {
        n
    } else {
        MAX_HEADER
    };
    // Find the newline that ends the header.
    let mut h: usize = 0;
    while h < limit && input[h] != NEWLINE
        invariant
            h <= limit <= n == input@.len(),
            forall|j: int| 0 <= j < h ==> input@[j] != NEWLINE,
        decreases limit - h,
    {
        h = h + 1;
    }
    if h == limit {
        proof {
            lemma_find_byte_props(input@, NEWLINE);
            match find_byte(input@, NEWLINE) {
                Option::Some(i) => {
                    assert(i >= limit);
                    assert(limit == MAX_HEADER || limit == n);
                },
                Option::None => {},
            }
        }
        return Err(FrameError::MalformedHeader);
    }
    proof {
        lemma_find_byte_witness(input@, NEWLINE, h as int);
    }
    let ghost header = input@.subrange(0, h as int);
    // Find the space separating command from length.
    let mut s: usize = 0;
    while s < h && input[s] != SPACE
        invariant
            s <= h < n == input@.len(),
            forall|j: int| 0 <= j < s ==> input@[j] != SPACE,
        decreases h - s,
    {
        s = s + 1;
    }
    proof {
        assert(forall|j: int| 0 <= j < header.len() ==> header[j] == input@[j]);
    }
    if s == h {
        proof {
            lemma_find_byte_props(header, SPACE);
            match find_byte(header, SPACE) {
                Option::Some(i) => {
                    assert(header[i] == SPACE);
                },
                Option::None => {},
            }
        }
        return Err(FrameError::MalformedHeader);
    }
    proof {
        lemma_find_byte_witness(header, SPACE, s as int);
    }
    let ghost digits = header.subrange(s + 1 as int, h as int);
    proof {
        assert(digits =~= input@.subrange(s + 1 as int, h as int));
    }
    if s + 1 == h {
        proof {
            assert(!digit_seq(digits));
        }
        return Err(FrameError::MalformedHeader);
    }
    // Validate the digits.
    let mut j: usize = s + 1;
    while j < h
        invariant
            s + 1 <= j <= h < n == input@.len(),
            h < MAX_HEADER,
            find_byte(input@, NEWLINE) == Option::Some(h as int),
            find_byte(input@.subrange(0, h as int), SPACE) == Option::Some(s as int),
            digits == input@.subrange(s + 1 as int, h as int),
            forall|i: int| s + 1 <= i < j ==> is_digit(#[trigger] input@[i]),
        decreases h - j,
    {
        let b = input[j];
        if !(b >= 48 && b <= 57) {
            proof {
                assert(digits[j - s - 1] == input@[j as int]);
                assert(!digit_seq(digits));
                assert(input@.subrange(0, h as int).subrange(s + 1 as int, h as int) =~= digits);
            }
            return Err(FrameError::MalformedHeader);
        }
        j = j + 1;
    }
    proof {
        assert(forall|i: int| 0 <= i < digits.len() ==> is_digit(#[trigger] digits[i]));
        assert(digit_seq(digits));
    }
    // Read the payload length, guarding the frame-size cap.
    let mut value: usize = 0;
    let mut j: usize = s + 1;
    while j < h
        invariant
            s + 1 <= j <= h < n == input@.len(),
            h < MAX_HEADER,
            find_byte(input@, NEWLINE) == Option::Some(h as int),
            find_byte(input@.subrange(0, h as int), SPACE) == Option::Some(s as int),
            digits == input@.subrange(s + 1 as int, h as int),
            digit_seq(digits),
            value == dec_val(digits.subrange(0, j - s - 1)),
            value <= MAX_FRAME,
        decreases h - j,
    {
        let b = input[j];
        proof {
            assert(digits[j - s - 1] == input@[j as int]);
            assert(is_digit(digits[j - s - 1]));
        }
        let d = (b - 48) as usize;
        let next = value * 10 + d;
        proof {
            let pre = digits.subrange(0, j - s - 1);
            let cur = digits.subrange(0, j - s);
            assert(cur.drop_last() =~= pre);
            assert(cur.last() == digits[j - s - 1]);
            assert(dec_val(cur) == dec_val(pre) * 10 + (digits[j - s - 1] - 48));
        }
        if next > MAX_FRAME {
            proof {
                lemma_dec_val_prefix(digits, j - s as int);
                assert(digits.subrange(0, digits.len() as int) =~= digits);
                assert(dec_val(digits) >= dec_val(digits.subrange(0, j - s)));
                assert(input@.subrange(0, h as int).subrange(s + 1 as int, h as int) =~= digits);
            }
            return Err(FrameError::FrameTooLarge);
        }
        value = next;
        j = j + 1;
    }
    proof {
        assert(digits.subrange(0, digits.len() as int) =~= digits);
        assert(value == dec_val(digits));
    }
    // Check that the whole payload is present.
    let avail = n - (h + 1);
    if avail < value {
        return Err(FrameError::TruncatedPayload);
    }
    let command = subvec(input, 0, s);
    let payload = subvec(input, h + 1, h + 1 + value);
    proof {
        assert(command@ =~= header.subrange(0, s as int));
    }
    Ok((Message { command, payload }, h + 1 + value))
}

/// Whether a buffer may still grow into one with a well-formed header: no
/// newline has arrived yet and the header cap is not yet reached. A reader
/// that gets `MalformedHeader` while this holds simply has not received the
/// whole header; once it stops holding, the header really is malformed.
pub fn header_incomplete(input: &Vec<u8>) -> (r: bool)
    ensures
        r == (find_byte(input@, NEWLINE) is None && input@.len() < MAX_HEADER),
{
    if input.len() >= MAX_HEADER {
        return false;
    }
    let mut i: usize = 0;
    while i < input.len()
        invariant
            i <= input@.len(),
            forall|j: int| 0 <= j < i ==> input@[j] != NEWLINE,
        decreases input.len() - i,
    {
        if input[i] == NEWLINE {
            proof {
                lemma_find_byte_witness(input@, NEWLINE, i as int);
            }
            return false;
        }
        i = i + 1;
    }
    proof {
        lemma_find_byte_props(input@, NEWLINE);
        match find_byte(input@, NEWLINE) {
            Option::Some(k) => {
                assert(input@[k] == NEWLINE);
            },
            Option::None => {},
        }
    }
    true
}

/// Decoding a buffer that starts with an encoded frame yields exactly that
/// frame's command and payload and consumes exactly the frame's bytes,
/// whatever bytes follow it.
pub proof fn lemma_decode_frame(c: Seq<u8>, p: Seq<u8>, rest: Seq<u8>)
    requires
        encodable(c, p),
    ensures
        spec_frame(c, p).len() == c.len() + dec_rep(p.len()).len() + 2 + p.len(),
        spec_decode(spec_frame(c, p) + rest) == Ok::<(Seq<u8>, Seq<u8>, int), FrameError>(
            (c, p, spec_frame(c, p).len() as int),
        ),
        (spec_frame(c, p) + rest).skip(spec_frame(c, p).len() as int) == rest,
{
    let d = dec_rep(p.len());
    lemma_dec_rep_digits(p.len());
    lemma_dec_rep_val(p.len());
    assert(pow10(8) == 100000000) by {
        reveal_with_fuel(pow10, 9);
    }
    lemma_dec_rep_len(p.len(), 8);
    let f = spec_frame(c, p);
    let g = f + rest;
    let h = c.len() + 1 + d.len();
    let head = c + seq![SPACE] + d;
    assert(head.len() == h);
    assert(f.len() == h + 1 + p.len());
    assert(g[h as int] == NEWLINE);
    assert forall|j: int| 0 <= j < h implies g[j] != NEWLINE by {
        if j < c.len() {
            assert(g[j] == c[j]);
            assert(is_token_byte(c[j]));
        } else if j == c.len() {
            assert(g[j] == SPACE);
        } else {
            assert(g[j] == d[j - c.len() - 1]);
            assert(is_digit(d[j - c.len() - 1]));
        }
    }
    lemma_find_byte_witness(g, NEWLINE, h as int);
    assert(h < MAX_HEADER);
    let header = g.subrange(0, h as int);
    assert(header =~= head);
    assert(header[c.len() as int] == SPACE);
    assert forall|j: int| 0 <= j < c.len() implies header[j] != SPACE by {
        assert(header[j] == c[j]);
        assert(is_token_byte(c[j]));
    }
    lemma_find_byte_witness(header, SPACE, c.len() as int);
    let digits = header.subrange(c.len() as int + 1, h as int);
    assert(digits =~= d);
    assert(digit_seq(digits));
    assert(dec_val(digits) == p.len());
    assert(g.len() >= h + 1 + p.len());
    assert(header.subrange(0, c.len() as int) =~= c);
    assert(g.subrange(h as int + 1, h as int + 1 + p.len() as int) =~= p);
    assert(g.skip(f.len() as int) =~= rest);
}

/// Round-trip law: for every valid `(command, payload)` pair, decoding the
/// encoded frame returns the same command and payload, byte for byte, and
/// consumes the whole frame.
pub proof fn lemma_round_trip(c: Seq<u8>, p: Seq<u8>)
    requires
        encodable(c, p),
    ensures
        spec_decode(spec_frame(c, p)) == Ok::<(Seq<u8>, Seq<u8>, int), FrameError>(
            (c, p, spec_frame(c, p).len() as int),
        ),
{
    lemma_decode_frame(c, p, Seq::<u8>::empty());
    assert(spec_frame(c, p) + Seq::<u8>::empty() =~= spec_frame(c, p));
}

/// Frame isolation: decoding twice from the concatenation of two encoded
/// frames yields the two original messages in order, regardless of how the
/// transport chunks the bytes (decoding sees only the accumulated buffer).
pub proof fn lemma_frame_isolation(c1: Seq<u8>, p1: Seq<u8>, c2: Seq<u8>, p2: Seq<u8>)
    requires
        encodable(c1, p1),
        encodable(c2, p2),
    ensures
        spec_decode(spec_frame(c1, p1) + spec_frame(c2, p2)) == Ok::<
            (Seq<u8>, Seq<u8>, int),
            FrameError,
        >((c1, p1, spec_frame(c1, p1).len() as int)),
        (spec_frame(c1, p1) + spec_frame(c2, p2)).skip(spec_frame(c1, p1).len() as int)
            == spec_frame(c2, p2),
        spec_decode(spec_frame(c2, p2)) == Ok::<(Seq<u8>, Seq<u8>, int), FrameError>(
            (c2, p2, spec_frame(c2, p2).len() as int),
        ),
{
    lemma_decode_frame(c1, p1, spec_frame(c2, p2));
    lemma_round_trip(c2, p2);
}

} // verus!
