//! Codes typed by a human: participation tokens, secrets, assessment codes.
//!
//! A pupil copies these from a paper slip, sometimes on a phone: every
//! character that could be mistaken for another is a lost login. The alphabet
//! therefore holds neither `0`/`O`, nor `1`/`I`/`L`, nor `U`.
use vstd::prelude::*;

use crate::text::{ascii_upper, is_ascii_alnum, is_ascii_alphanumeric, push_char, to_ascii_uppercase};

verus! {

/// The thirty characters a code may contain.
pub const ALPHABET: [char; 30] = [
    '2', '3', '4', '5', '6', '7', '8', '9', 'A', 'B', 'C', 'D', 'E', 'F', 'G', 'H', 'J', 'K', 'M',
    'N', 'P', 'Q', 'R', 'S', 'T', 'V', 'W', 'X', 'Y', 'Z',
];

/// The largest multiple of 30 that fits in a byte.
///
/// A bare `byte % 30` would favour the first characters, 256 not being a
/// multiple of 30: bytes at or above this bound are rejected instead.
pub const REJECT_AT: u8 = 240;

/// Number of 32-byte random blocks a code is read from.
///
/// They run short only if all but a handful of their 2 048 bytes fall in the
/// rejected tail; a block is wholly rejected with probability 2^-128. A
/// rejected byte is never used.
pub const MAX_ROUNDS: u32 = 64;

/// Membership in the code alphabet.
pub open spec fn in_alphabet(c: char) -> bool {
    exists|k: int| 0 <= k < 30 && #[trigger] ALPHABET@[k] == c
}

pub open spec fn all_in_alphabet(s: Seq<char>) -> bool {
    forall|i: int| 0 <= i < s.len() ==> in_alphabet(#[trigger] s[i])
}

/// Fills a block with bytes from the operating system's generator
/// (`rand::fill`, thread-local CSPRNG). Nothing is promised of the bytes.
#[verifier::external_body]
pub(crate) fn fill_random(buf: &mut [u8; 32]) {
    rand::fill(buf);
}

/// The characters a byte stream gives: each byte under `REJECT_AT`, in
/// order, picks `ALPHABET[b % 30]`; every byte of `REJECT_AT` or more is
/// dropped. Each character is the image of exactly eight accepted byte
/// values, so the draw has no bias.
pub open spec fn accepted_chars(bytes: Seq<u8>) -> Seq<char>
    decreases bytes.len(),
{
    if bytes.len() == 0 {
        Seq::empty()
    } else {
        let rest = accepted_chars(bytes.drop_last());
        let b = bytes.last();
        if b < REJECT_AT {
            rest.push(ALPHABET@[(b % 30) as int])
        } else {
            rest
        }
    }
}

/// At most the first `n` items of `s`.
pub open spec fn up_to<T>(s: Seq<T>, n: int) -> Seq<T> {
    if s.len() <= n {
        s
    } else {
        s.take(n)
    }
}

/// The bytes of a run of random blocks, one after the other.
pub open spec fn block_bytes(blocks: Seq<[u8; 32]>) -> Seq<u8>
    decreases blocks.len(),
{
    if blocks.len() == 0 {
        Seq::empty()
    } else {
        block_bytes(blocks.drop_last()) + blocks.last()@
    }
}

/// The code of `len` characters that a run of random blocks gives: the first
/// `len` characters of their accepted bytes, or none when they hold too few.
pub open spec fn code_of_blocks(blocks: Seq<[u8; 32]>, len: nat) -> Option<Seq<char>> {
    let acc = accepted_chars(block_bytes(blocks));
    if acc.len() >= len {
        Some(acc.take(len as int))
    } else {
        None
    }
}

/// The view of an optional text.
pub open spec fn opt_text(o: Option<String>) -> Option<Seq<char>> {
    match o {
        Some(s) => Some(s@),
        None => None,
    }
}

/// A code shown in dash-separated groups of `by`, when there is one.
pub open spec fn displayed(o: Option<Seq<char>>, by: nat) -> Option<Seq<char>> {
    match o {
        Some(raw) => Some(grouped_spec(raw, by)),
        None => None,
    }
}

proof fn lemma_accepted_in_alphabet(bytes: Seq<u8>)
    ensures
        all_in_alphabet(accepted_chars(bytes)),
    decreases bytes.len(),
{
    if bytes.len() > 0 {
        lemma_accepted_in_alphabet(bytes.drop_last());
        let b = bytes.last();
        if b < REJECT_AT {
            let rest = accepted_chars(bytes.drop_last());
            let c = ALPHABET@[(b % 30) as int];
            assert(in_alphabet(c));
            assert forall|i: int| 0 <= i < rest.push(c).len() implies in_alphabet(#[trigger] rest.push(c)[i]) by {
                if i < rest.len() {
                    assert(rest.push(c)[i] == rest[i]);
                }
            }
        }
    }
}

proof fn lemma_accepted_concat(a: Seq<u8>, b: Seq<u8>)
    ensures
        accepted_chars(a + b) == accepted_chars(a) + accepted_chars(b),
    decreases b.len(),
{
    if b.len() == 0 {
        assert(a + b == a);
        assert(accepted_chars(a) + accepted_chars(b) == accepted_chars(a));
    } else {
        lemma_accepted_concat(a, b.drop_last());
        assert((a + b).drop_last() == a + b.drop_last());
        assert((a + b).last() == b.last());
        let rest = accepted_chars(a) + accepted_chars(b.drop_last());
        let c = ALPHABET@[(b.last() % 30) as int];
        assert(rest.push(c) == accepted_chars(a) + accepted_chars(b.drop_last()).push(c));
    }
}

proof fn lemma_up_to_concat(x: Seq<char>, y: Seq<char>, n: int)
    requires
        n >= 0,
    ensures
        up_to(x, n) + up_to(y, n - up_to(x, n).len()) == up_to(x + y, n),
{
    if x.len() <= n {
        if y.len() <= n - x.len() {
        } else {
            assert(x + y.take(n - x.len()) == (x + y).take(n));
        }
    } else {
        assert(x.take(n) + up_to(y, 0) == (x + y).take(n));
    }
}

/// Appends to `out` the characters that `block` gives, in order, until `out`
/// holds `len` characters: each byte under `REJECT_AT` picks
/// `ALPHABET[b % 30]`, every byte of 240 or more is dropped.
pub fn take_accepted(block: &[u8; 32], out: &mut String, len: usize)
    requires
        old(out)@.len() <= len,
    ensures
        final(out)@ == old(out)@ + up_to(accepted_chars(block@), len - old(out)@.len()),
{
    let ghost start = out@;
    let ghost room = len - start.len();
    let mut n: usize = out.unicode_len();
    let mut k: usize = 0;
    proof {
        assert(block@.take(0) =~= Seq::<u8>::empty());
    }
    while k < 32
        invariant
            k <= 32,
            block@.len() == 32,
            room == len - start.len(),
            room >= 0,
            n == out@.len(),
            out@ == start + up_to(accepted_chars(block@.take(k as int)), room),
        decreases 32 - k,
    {
        let b = block[k];
        let ghost acc = accepted_chars(block@.take(k as int));
        proof {
            assert(block@.take(k + 1).drop_last() == block@.take(k as int));
            assert(block@.take(k + 1).last() == b);
        }
        if b < REJECT_AT && n < len {
            let c = ALPHABET[(b % 30) as usize];
            push_char(out, c);
            n = n + 1;
            proof {
                assert(acc.len() < room);
                assert(up_to(acc.push(c), room) == acc.push(c));
                assert(start + acc.push(c) == (start + acc).push(c));
            }
        } else if b < REJECT_AT {
            proof {
                assert(acc.len() >= room);
                assert(acc.push(ALPHABET@[(b % 30) as int]).take(room) == acc.take(room));
            }
        }
        k = k + 1;
    }
    proof {
        assert(block@.take(32) == block@);
    }
}

/// The code of `len` characters that `blocks` give, read in order: each byte
/// under `REJECT_AT` picks `ALPHABET[b % 30]`, every byte of 240 or more is
/// dropped; `None` when the blocks hold fewer than `len` accepted bytes.
pub fn code_from_blocks(blocks: &[[u8; 32]], len: usize) -> (r: Option<String>)
    ensures
        opt_text(r) == code_of_blocks(blocks@, len as nat),
        r matches Some(s) ==> s@.len() == len && all_in_alphabet(s@),
{
    let mut out = String::new();
    let mut i: usize = 0;
    proof {
        assert(blocks@.take(0) =~= Seq::<[u8; 32]>::empty());
    }
    while i < blocks.len()
        invariant
            i <= blocks@.len(),
            out@.len() <= len,
            out@ == up_to(accepted_chars(block_bytes(blocks@.take(i as int))), len as int),
        decreases blocks@.len() - i,
    {
        let ghost prefix = block_bytes(blocks@.take(i as int));
        take_accepted(&blocks[i], &mut out, len);
        proof {
            assert(blocks@.take(i + 1).drop_last() == blocks@.take(i as int));
            assert(blocks@.take(i + 1).last() == blocks@[i as int]);
            lemma_up_to_concat(accepted_chars(prefix), accepted_chars(blocks@[i as int]@), len as int);
            lemma_accepted_concat(prefix, blocks@[i as int]@);
        }
        i = i + 1;
    }
    proof {
        assert(blocks@.take(blocks@.len() as int) == blocks@);
        lemma_accepted_in_alphabet(block_bytes(blocks@));
    }
    let acc = Ghost(accepted_chars(block_bytes(blocks@)));
    if out.unicode_len() == len {
        proof {
            assert(out@ == acc@.take(len as int));
            assert forall|k: int| 0 <= k < out@.len() implies in_alphabet(#[trigger] out@[k]) by {
                assert(out@[k] == acc@[k]);
            }
        }
        Some(out)
    } else {
        None
    }
}

/// `len` characters drawn evenly from the alphabet by rejection sampling:
/// `MAX_ROUNDS` blocks are drawn from the operating system's generator and
/// read by `code_from_blocks`.
pub fn code(len: usize) -> (out: Option<String>)
    ensures
        exists|blocks: Seq<[u8; 32]>|
            blocks.len() == MAX_ROUNDS && #[trigger] code_of_blocks(blocks, len as nat) == opt_text(out),
        out matches Some(s) ==> s@.len() == len && all_in_alphabet(s@),
{
    let mut blocks: Vec<[u8; 32]> = Vec::new();
    let mut rounds: u32 = 0;
    while rounds < MAX_ROUNDS
        invariant
            rounds <= MAX_ROUNDS,
            blocks@.len() == rounds,
        decreases MAX_ROUNDS - rounds,
    {
        let mut buf = [0u8; 32];
        fill_random(&mut buf);
        blocks.push(buf);
        rounds = rounds + 1;
    }
    let out = code_from_blocks(blocks.as_slice(), len);
    proof {
        assert(code_of_blocks(blocks@, len as nat) == opt_text(out));
    }
    out
}

/// `raw` cut into chunks of `by` characters, joined by `-`.
pub open spec fn grouped_spec(raw: Seq<char>, by: nat) -> Seq<char>
    decreases raw.len(),
{
    if by == 0 || raw.len() <= by {
        raw
    } else {
        raw.take(by as int).push('-') + grouped_spec(raw.skip(by as int), by)
    }
}

/// ASCII characters only: there, characters and bytes coincide.
pub open spec fn is_ascii_text(s: Seq<char>) -> bool {
    forall|i: int| 0 <= i < s.len() ==> #[trigger] s[i] <= '\u{7f}'
}

proof fn lemma_alphabet_is_ascii(s: Seq<char>)
    requires
        all_in_alphabet(s),
    ensures
        is_ascii_text(s),
{
    assert forall|k: int| 0 <= k < 30 implies #[trigger] ALPHABET@[k] <= '\u{7f}' by {
        assert(ALPHABET@ =~= seq![
            '2', '3', '4', '5', '6', '7', '8', '9', 'A', 'B', 'C', 'D', 'E', 'F', 'G', 'H', 'J', 'K', 'M',
            'N', 'P', 'Q', 'R', 'S', 'T', 'V', 'W', 'X', 'Y', 'Z',
        ]);
    }
    assert forall|i: int| 0 <= i < s.len() implies #[trigger] s[i] <= '\u{7f}' by {
        let k = choose|k: int| 0 <= k < 30 && #[trigger] ALPHABET@[k] == s[i];
    }
}

/// `raw` cut into chunks of `by` characters joined by `-`. The raw code is
/// ASCII, as its alphabet is: chunks of bytes and of characters coincide.
pub fn grouped(raw: &str, by: usize) -> (out: String)
    requires
        by > 0,
        is_ascii_text(raw@),
    ensures
        out@ == grouped_spec(raw@, by as nat),
{
    let n = raw.unicode_len();
    let mut out = String::new();
    let mut i: usize = 0;
    proof {
        assert(raw@.skip(0) == raw@);
        assert(out@ + raw@ == raw@);
    }
    while i < n
        invariant
            by > 0,
            n == raw@.len(),
            i <= n,
            grouped_spec(raw@, by as nat) == out@ + grouped_spec(raw@.skip(i as int), by as nat),
        decreases n - i,
    {
        let ghost rest = raw@.skip(i as int);
        let ghost before = out@;
        let end = if n - i <= by { n } else { i + by };
        let mut j = i;
        while j < end
            invariant
                i <= j <= end <= n,
                n == raw@.len(),
                out@ == before + raw@.subrange(i as int, j as int),
            decreases end - j,
        {
            let c = raw.get_char(j);
            push_char(&mut out, c);
            proof {
                assert(raw@.subrange(i as int, j + 1) == raw@.subrange(i as int, j as int).push(c));
                assert(before + raw@.subrange(i as int, j + 1) == (before + raw@.subrange(i as int, j as int)).push(c));
            }
            j = j + 1;
        }
        if end < n {
            push_char(&mut out, '-');
        }
        proof {
            if n - i <= by {
                assert(raw@.subrange(i as int, n as int) == rest);
                assert(raw@.skip(n as int) == Seq::<char>::empty());
                assert(out@ + Seq::<char>::empty() == out@);
            } else {
                let chunk = raw@.subrange(i as int, (i + by) as int);
                assert(rest.take(by as int) == chunk);
                assert(rest.skip(by as int) == raw@.skip((i + by) as int));
                let tail = grouped_spec(raw@.skip((i + by) as int), by as nat);
                assert(out@ == (before + chunk).push('-'));
                assert(before + (chunk.push('-') + tail) == (before + chunk).push('-') + tail);
            }
        }
        i = end;
    }
    out
}

/// Shape of a displayed code: `groups` chunks of `width` alphabet characters
/// separated by single dashes.
pub open spec fn displayed_shape(s: Seq<char>, width: nat, groups: nat) -> bool {
    &&& s.len() == groups * (width + 1) - 1
    &&& forall|i: int|
        0 <= i < s.len() ==> if (i + 1) % ((width + 1) as int) == 0 {
            s[i] == '-'
        } else {
            in_alphabet(#[trigger] s[i])
        }
}

/// Participation token: eight characters shown as two groups of four. Its
/// canonical form is the code drawn, the dash taken out.
///
/// It identifies, it does not authenticate — the secret does that.
pub fn participant_token() -> (token: Option<String>)
    ensures
        exists|blocks: Seq<[u8; 32]>|
            blocks.len() == MAX_ROUNDS && #[trigger] displayed(code_of_blocks(blocks, 8), 4) == opt_text(token),
        token matches Some(t) ==> {
            &&& displayed_shape(t@, 4, 2)
            &&& normalized(t@).len() == 8
            &&& all_in_alphabet(normalized(t@))
            &&& grouped_spec(normalized(t@), 4) == t@
        },
{
    let drawn = code(8);
    let ghost blocks = choose|blocks: Seq<[u8; 32]>|
        blocks.len() == MAX_ROUNDS && #[trigger] code_of_blocks(blocks, 8) == opt_text(drawn);
    let raw = match drawn {
        Some(r) => r,
        None => {
            proof {
                assert(displayed(code_of_blocks(blocks, 8), 4) == opt_text(None));
            }
            return None;
        },
    };
    proof {
        lemma_alphabet_is_ascii(raw@);
    }
    let token = grouped(raw.as_str(), 4);
    proof {
        reveal_with_fuel(grouped_spec, 3);
        let r = raw@;
        assert(r.skip(4).len() == 4);
        assert(token@ == r.take(4).push('-') + r.skip(4));
        assert forall|i: int| 0 <= i < token@.len() implies (if (i + 1) % 5 == 0 {
            token@[i] == '-'
        } else {
            in_alphabet(#[trigger] token@[i])
        }) by {
            if i < 4 {
                assert(token@[i] == r[i]);
            } else if i > 4 {
                assert(token@[i] == r[i - 1]);
            }
        }
        lemma_drawn_code_is_canonical(r);
        lemma_displayed_code_normalizes_back(r, 4);
        assert(displayed(code_of_blocks(blocks, 8), 4) == opt_text(Some(token)));
    }
    Some(token)
}

/// Participant secret: ten characters shown as two groups of five. Its
/// canonical form is the code drawn, the dash taken out, whatever the case
/// it is typed in.
///
/// Copied by hand, hence short, hence hashed with Argon2id.
pub fn participant_secret() -> (secret: Option<String>)
    ensures
        exists|blocks: Seq<[u8; 32]>|
            blocks.len() == MAX_ROUNDS && #[trigger] displayed(code_of_blocks(blocks, 10), 5) == opt_text(secret),
        secret matches Some(t) ==> {
            &&& displayed_shape(t@, 5, 2)
            &&& normalized(t@).len() == 10
            &&& all_in_alphabet(normalized(t@))
            &&& grouped_spec(normalized(t@), 5) == t@
            &&& normalized(t@.map_values(|c: char| ascii_lower(c))) == normalized(t@)
        },
{
    let drawn = code(10);
    let ghost blocks = choose|blocks: Seq<[u8; 32]>|
        blocks.len() == MAX_ROUNDS && #[trigger] code_of_blocks(blocks, 10) == opt_text(drawn);
    let raw = match drawn {
        Some(r) => r,
        None => {
            proof {
                assert(displayed(code_of_blocks(blocks, 10), 5) == opt_text(None));
            }
            return None;
        },
    };
    proof {
        lemma_alphabet_is_ascii(raw@);
    }
    let secret = grouped(raw.as_str(), 5);
    proof {
        reveal_with_fuel(grouped_spec, 3);
        let r = raw@;
        assert(r.skip(5).len() == 5);
        assert(secret@ == r.take(5).push('-') + r.skip(5));
        assert forall|i: int| 0 <= i < secret@.len() implies (if (i + 1) % 6 == 0 {
            secret@[i] == '-'
        } else {
            in_alphabet(#[trigger] secret@[i])
        }) by {
            if i < 5 {
                assert(secret@[i] == r[i]);
            } else if i > 5 {
                assert(secret@[i] == r[i - 1]);
            }
        }
        lemma_drawn_code_is_canonical(r);
        lemma_displayed_code_normalizes_back(r, 5);
        assert(displayed(code_of_blocks(blocks, 10), 5) == opt_text(Some(secret)));
        lemma_normalize_ignores_case(secret@);
    }
    Some(secret)
}

/// Assessment code: six characters, announced aloud or projected; already
/// in canonical form.
pub fn assessment_code() -> (c: Option<String>)
    ensures
        exists|blocks: Seq<[u8; 32]>|
            blocks.len() == MAX_ROUNDS && #[trigger] code_of_blocks(blocks, 6) == opt_text(c),
        c matches Some(s) ==> s@.len() == 6 && all_in_alphabet(s@) && normalized(s@) == s@,
{
    let c = code(6);
    proof {
        if c is Some {
            lemma_drawn_code_is_canonical(c->0@);
            lemma_code_is_canonical(c->0@);
        }
    }
    c
}

/// Canonical form of a typed code: ASCII letters and digits only, upper-cased.
pub open spec fn normalized(s: Seq<char>) -> Seq<char>
    decreases s.len(),
{
    if s.len() == 0 {
        Seq::empty()
    } else {
        let rest = normalized(s.drop_last());
        if is_ascii_alnum(s.last()) {
            rest.push(ascii_upper(s.last()))
        } else {
            rest
        }
    }
}

/// Brings a code to its canonical form: upper case, no separator.
///
/// This form is hashed and compared, never the displayed one: a pupil types
/// in lower case, forgets the dash, adds one elsewhere or pastes a
/// non-breaking space, and all of these must lead to the same code.
pub fn normalize(input: &str) -> (out: String)
    ensures
        out@ == normalized(input@),
{
    let mut out = String::new();
    let n = input.unicode_len();
    let mut i: usize = 0;
    while i < n
        invariant
            i <= n,
            n == input@.len(),
            out@ == normalized(input@.take(i as int)),
        decreases n - i,
    {
        let c = input.get_char(i);
        proof {
            assert(input@.take(i + 1).drop_last() == input@.take(i as int));
            assert(input@.take(i + 1).last() == c);
        }
        if is_ascii_alphanumeric(c) {
            push_char(&mut out, to_ascii_uppercase(c));
        }
        i = i + 1;
    }
    proof {
        assert(input@.take(n as int) == input@);
    }
    out
}

proof fn lemma_normalized_concat(a: Seq<char>, b: Seq<char>)
    ensures
        normalized(a + b) == normalized(a) + normalized(b),
    decreases b.len(),
{
    if b.len() == 0 {
        assert(a + b == a);
        assert(normalized(a) + normalized(b) == normalized(a));
    } else {
        lemma_normalized_concat(a, b.drop_last());
        assert((a + b).drop_last() == a + b.drop_last());
        assert((a + b).last() == b.last());
    }
}

proof fn lemma_alphabet_is_canonical(c: char)
    requires
        in_alphabet(c),
    ensures
        is_ascii_alnum(c),
        ascii_upper(c) == c,
{
    assert forall|k: int| 0 <= k < 30 implies is_ascii_alnum(#[trigger] ALPHABET@[k]) && !('a' <= ALPHABET@[k] && ALPHABET@[k] <= 'z') by {
        assert(ALPHABET@ =~= seq![
            '2', '3', '4', '5', '6', '7', '8', '9', 'A', 'B', 'C', 'D', 'E', 'F', 'G', 'H', 'J', 'K', 'M',
            'N', 'P', 'Q', 'R', 'S', 'T', 'V', 'W', 'X', 'Y', 'Z',
        ]);
    }
    let k = choose|k: int| 0 <= k < 30 && #[trigger] ALPHABET@[k] == c;
}

/// A canonical text: ASCII letters and digits only, none in lower case.
pub open spec fn is_canonical(s: Seq<char>) -> bool {
    forall|i: int| 0 <= i < s.len() ==> is_ascii_alnum(#[trigger] s[i]) && ascii_upper(s[i]) == s[i]
}

/// Every code drawn from the alphabet is canonical.
pub proof fn lemma_drawn_code_is_canonical(raw: Seq<char>)
    requires
        all_in_alphabet(raw),
    ensures
        is_canonical(raw),
{
    assert forall|i: int| 0 <= i < raw.len() implies is_ascii_alnum(#[trigger] raw[i]) && ascii_upper(raw[i]) == raw[i] by {
        lemma_alphabet_is_canonical(raw[i]);
    }
}

/// A canonical text is its own canonical form; in particular a drawn code.
pub proof fn lemma_code_is_canonical(raw: Seq<char>)
    requires
        is_canonical(raw),
    ensures
        normalized(raw) == raw,
    decreases raw.len(),
{
    if raw.len() > 0 {
        lemma_code_is_canonical(raw.drop_last());
        assert(raw.drop_last().push(raw.last()) == raw);
    }
}

/// **The displayed form and the canonical form match**: a canonical code
/// (ASCII upper-case letters and digits, as every drawn code is) shown in
/// dash-separated groups comes back, once normalised, to the code itself.
pub proof fn lemma_displayed_code_normalizes_back(raw: Seq<char>, by: nat)
    requires
        is_canonical(raw),
        by > 0,
    ensures
        normalized(grouped_spec(raw, by)) == raw,
    decreases raw.len(),
{
    if raw.len() <= by {
        lemma_code_is_canonical(raw);
    } else {
        let head = raw.take(by as int);
        let tail = raw.skip(by as int);
        lemma_displayed_code_normalizes_back(tail, by);
        lemma_code_is_canonical(head);
        lemma_normalized_concat(head.push('-'), grouped_spec(tail, by));
        assert(head.push('-').drop_last() == head);
        assert(normalized(head.push('-')) == normalized(head));
        assert(head + tail == raw);
    }
}

/// Normalising twice changes nothing.
pub proof fn lemma_normalize_idempotent(s: Seq<char>)
    ensures
        normalized(normalized(s)) == normalized(s),
    decreases s.len(),
{
    if s.len() > 0 {
        lemma_normalize_idempotent(s.drop_last());
        let rest = normalized(s.drop_last());
        if is_ascii_alnum(s.last()) {
            let u = ascii_upper(s.last());
            assert(rest.push(u).drop_last() == rest);
            assert(is_ascii_alnum(u) && ascii_upper(u) == u) by {
                if 'a' <= s.last() && s.last() <= 'z' {
                    assert((s.last() as u32) - 32 >= 'A' as u32);
                }
            }
        }
    }
}

/// ASCII lower case of a character.
pub open spec fn ascii_lower(c: char) -> char {
    if 'A' <= c && c <= 'Z' {
        ((c as u32) + 32) as char
    } else {
        c
    }
}

/// The case of what is typed does not matter.
pub proof fn lemma_normalize_ignores_case(s: Seq<char>)
    ensures
        normalized(s.map_values(|c: char| ascii_lower(c))) == normalized(s),
    decreases s.len(),
{
    if s.len() > 0 {
        let lower = s.map_values(|c: char| ascii_lower(c));
        lemma_normalize_ignores_case(s.drop_last());
        assert(lower.drop_last() == s.drop_last().map_values(|c: char| ascii_lower(c)));
        let c = s.last();
        assert(lower.last() == ascii_lower(c));
        if 'A' <= c && c <= 'Z' {
            assert(ascii_lower(c) as u32 == (c as u32) + 32);
            assert(ascii_upper(ascii_lower(c)) == c);
        }
    }
}

} // verus!
