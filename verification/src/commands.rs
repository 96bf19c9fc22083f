//! Plain-text commands: what a server accepts as a command datagram, and
//! the commands a user types at a client.

use vstd::prelude::*;
use vstd::utf8::*;
use crate::text::{
    chars_of, spells, trim, trim_chars, is_white_space, white_space, push_range, push_str, string_from_chars,
    all_white_space, lemma_trim_padded, lemma_trim_ascii, lemma_trim_map, digits,
};
use crate::roster::texts;
use crate::leases::DEFAULT_LEASE_VIEWS;

verus! {

/// Names what `String::from_utf8_lossy` makes of a byte sequence.
pub uninterp spec fn utf8_lossy(bytes: Seq<u8>) -> Seq<char>;

/// Names what `str::to_lowercase` makes of a character sequence.
pub uninterp spec fn lowercase(s: Seq<char>) -> Seq<char>;

/// `String::from_utf8_lossy`: the text of the bytes, with each ill-formed
/// sequence replaced by U+FFFD. Its result is named `utf8_lossy`; on
/// well-formed UTF-8 it is the decoded text. Which ill-formed sequences are
/// replaced as one is left to the name.
#[verifier::external_body]
pub(crate) fn decode_lossy(bytes: &[u8]) -> (v: Vec<char>)
    ensures
        v@ == utf8_lossy(bytes@),
        valid_utf8(bytes@) ==> v@ == decode_utf8(bytes@),
{
    String::from_utf8_lossy(bytes).chars().collect()
}

/// ASCII lower case of one character: `A`-`Z` become `a`-`z`.
pub open spec fn ascii_lower(c: char) -> char {
    if 'A' <= c <= 'Z' { ((c as u32) + 32) as char } else { c }
}

/// `str::to_lowercase` on the string made of `s`: its Unicode lower-case
/// form, named `lowercase`. On ASCII text it lowers `A`-`Z` and keeps every
/// other character; beyond ASCII the case tables are left to the name.
#[verifier::external_body]
pub(crate) fn to_lowercase(s: &[char]) -> (v: Vec<char>)
    ensures
        v@ == lowercase(s@),
        is_ascii_chars(s@) ==> v@ == s@.map_values(|c: char| ascii_lower(c)),
{
    s.iter().collect::<String>().to_lowercase().chars().collect()
}

/// The two command words a server answers on its client socket.
pub open spec fn is_command_word(s: Seq<char>) -> bool {
    s == "ping"@ || s == "list"@
}

/// Whether already lower-cased, trimmed text is one of the command words.
pub fn is_command_text(text: &Vec<char>) -> (r: bool)
    ensures
        r == is_command_word(text@),
{
    spells(text, "ping") || spells(text, "list")
}

/// Whether every byte is ASCII.
pub open spec fn ascii_bytes(b: Seq<u8>) -> bool {
    forall|i: int| 0 <= i < b.len() ==> #[trigger] b[i] < 128
}

/// ASCII bytes read as text: one character each.
pub open spec fn ascii_text(b: Seq<u8>) -> Seq<char> {
    b.map_values(|x: u8| x as char)
}

/// Whether ASCII bytes, read as text, trimmed and lower-cased, spell a
/// command word.
pub open spec fn is_ascii_command(b: Seq<u8>) -> bool {
    is_command_word(trim(ascii_text(b)).map_values(|c: char| ascii_lower(c)))
}

/// `b` with `a`-`z` made upper case (what `<[u8]>::to_ascii_uppercase` gives).
pub open spec fn ascii_upper_bytes(b: Seq<u8>) -> Seq<u8> {
    b.map_values(|x: u8| if 97 <= x <= 122 { (x - 32) as u8 } else { x })
}

/// `b` with a space and a tab before it and a carriage return and a line
/// feed after it.
pub open spec fn padded_bytes(b: Seq<u8>) -> Seq<u8> {
    seq![32u8, 9u8] + b + seq![13u8, 10u8]
}

/// ASCII bytes are well-formed UTF-8 and decode one character per byte.
proof fn lemma_ascii_decodes(b: Seq<u8>)
    requires
        ascii_bytes(b),
    ensures
        valid_utf8(b),
        decode_utf8(b) == ascii_text(b),
        is_ascii_chars(ascii_text(b)),
{
    let t = ascii_text(b);
    assert forall|i: int| 0 <= i < t.len() implies '\0' <= #[trigger] t[i] <= '\u{7f}' by {
        assert(t[i] == b[i] as char);
    }
    is_ascii_chars_encode_utf8(t);
    assert(encode_utf8(t) =~= b);
    encode_utf8_valid_utf8(t);
    encode_utf8_decode_utf8(t);
}

/// Whether a received buffer, read as text, trimmed and lower-cased, is
/// `ping` or `list`. On ASCII bytes that is `is_ascii_command`.
pub fn is_valid_message(buf: &[u8]) -> (r: bool)
    ensures
        r == is_command_word(lowercase(trim(utf8_lossy(buf@)))),
        ascii_bytes(buf@) ==> r == is_ascii_command(buf@),
{
    let text = decode_lossy(buf);
    let trimmed = trim_chars(&text);
    proof {
        if ascii_bytes(buf@) {
            lemma_ascii_decodes(buf@);
            lemma_trim_ascii(text@);
        }
    }
    let lowered = to_lowercase(trimmed.as_slice());
    is_command_text(&lowered)
}

/// ASCII upper case of one character: `a`-`z` become `A`-`Z`.
spec fn ascii_upper(c: char) -> char {
    if 'a' <= c <= 'z' { ((c as u32) - 32) as char } else { c }
}

/// Law (commands ignore case and padding): an ASCII buffer is a command
/// exactly when its upper-case form is, and exactly when it is with white
/// space added at both ends.
pub proof fn lemma_command_ignores_case_and_padding(b: Seq<u8>)
    requires
        ascii_bytes(b),
    ensures
        ascii_bytes(ascii_upper_bytes(b)),
        is_ascii_command(ascii_upper_bytes(b)) == is_ascii_command(b),
        ascii_bytes(padded_bytes(b)),
        is_ascii_command(padded_bytes(b)) == is_ascii_command(b),
{
    let t = ascii_text(b);
    let u = ascii_upper_bytes(b);
    let f = |c: char| ascii_upper(c);
    let g = |c: char| ascii_lower(c);
    assert forall|i: int| 0 <= i < u.len() implies #[trigger] u[i] < 128 by {
        assert(u[i] == (if 97 <= b[i] <= 122 { (b[i] - 32) as u8 } else { b[i] }));
    }
    assert(ascii_text(u) =~= t.map_values(f));
    assert forall|c: char| #[trigger] is_white_space(f(c)) == is_white_space(c) by {}
    lemma_trim_map(t, f);
    assert(trim(t).map_values(f).map_values(g) =~= trim(t).map_values(g));
    let p = padded_bytes(b);
    assert forall|i: int| 0 <= i < p.len() implies #[trigger] p[i] < 128 by {
        if 2 <= i < 2 + b.len() {
            assert(p[i] == b[i - 2]);
        }
    }
    let pre = seq![' ', '\t'];
    let post = seq!['\r', '\n'];
    assert(ascii_text(p) =~= pre + t + post);
    assert(all_white_space(pre)) by {
        assert(pre[0] == ' ' && pre[1] == '\t');
    }
    assert(all_white_space(post)) by {
        assert(post[0] == '\r' && post[1] == '\n');
    }
    lemma_trim_padded(pre, t, post);
}

/// The number of characters before the first white space of `t`.
pub open spec fn word_len(t: Seq<char>) -> nat
    decreases t.len(),
{
    if t.len() == 0 || is_white_space(t[0]) {
        0
    } else {
        1 + word_len(t.drop_first())
    }
}

/// The white-space separated words of `s` from position `i` on (what
/// `str::split_whitespace` gives).
pub open spec fn words_from(s: Seq<char>, i: int) -> Seq<Seq<char>>
    decreases s.len() - i,
{
    if i < 0 || i >= s.len() {
        Seq::empty()
    } else if is_white_space(s[i]) {
        words_from(s, i + 1)
    } else {
        let e = i + word_len(s.skip(i));
        // A word starts at `i` and ends within `s`, so this guard never
        // holds; it lets the definition show that it terminates.
        if e <= i || e > s.len() {
            Seq::empty()
        } else {
            seq![s.subrange(i, e)] + words_from(s, e)
        }
    }
}

/// The white-space separated words of `s`.
pub open spec fn words(s: Seq<char>) -> Seq<Seq<char>> {
    words_from(s, 0)
}

proof fn lemma_word_len(t: Seq<char>, k: int)
    requires
        0 <= k <= t.len(),
        forall|j: int| 0 <= j < k ==> !is_white_space(t[j]),
        k == t.len() || is_white_space(t[k]),
    ensures
        word_len(t) == k,
    decreases k,
{
    if k > 0 {
        lemma_word_len(t.drop_first(), k - 1);
    }
}

/// Law (two words): two non-empty runs without white space, with one
/// space between them, split into exactly those two words.
pub proof fn lemma_two_words(a: Seq<char>, b: Seq<char>)
    requires
        a.len() > 0,
        b.len() > 0,
        forall|j: int| 0 <= j < a.len() ==> !is_white_space(#[trigger] a[j]),
        forall|j: int| 0 <= j < b.len() ==> !is_white_space(#[trigger] b[j]),
    ensures
        words(a + seq![' '] + b) == seq![a, b],
{
    let s = a + seq![' '] + b;
    let n = a.len() as int;
    assert(is_white_space(' ')) by {
        assert((' ' as u32) == 32);
    }
    assert(s[n] == ' ');
    let t0 = s.skip(0);
    assert forall|j: int| 0 <= j < n implies !is_white_space(t0[j]) by {
        assert(t0[j] == a[j]);
    }
    assert(t0[n] == ' ');
    lemma_word_len(t0, n);
    assert(s[0] == a[0]);
    assert(s.subrange(0, n) =~= a);
    let t1 = s.skip(n + 1);
    assert(t1 =~= b);
    lemma_word_len(t1, b.len() as int);
    assert(s[n + 1] == b[0]);
    assert(s.subrange(n + 1, s.len() as int) =~= b);
    assert(words_from(s, s.len() as int) == Seq::<Seq<char>>::empty());
    assert(words_from(s, n + 1) =~= seq![b]);
    assert(words_from(s, n) =~= seq![b]);
    assert(words_from(s, 0) =~= seq![a] + seq![b]);
    assert(seq![a] + seq![b] =~= seq![a, b]);
}

/// Splits a line into its white-space separated words.
pub fn split_words(v: &Vec<char>) -> (r: Vec<Vec<char>>)
    ensures
        texts(r@) == words(v@),
{
    let mut out: Vec<Vec<char>> = Vec::new();
    let mut i: usize = 0;
    while i < v.len()
        invariant
            i <= v@.len(),
            words(v@) == texts(out@) + words_from(v@, i as int),
        decreases v@.len() - i,
    {
        if white_space(v[i]) {
            i = i + 1;
        } else {
            let mut e = i;
            while e < v.len() && !white_space(v[e])
                invariant
                    i <= e <= v@.len(),
                    forall|j: int| i <= j < e ==> !is_white_space(v@[j]),
                decreases v@.len() - e,
            {
                e = e + 1;
            }
            proof {
                let t = v@.skip(i as int);
                assert forall|j: int| 0 <= j < e - i implies !is_white_space(t[j]) by {
                    assert(t[j] == v@[i + j]);
                }
                if e < v@.len() {
                    assert(t[e - i] == v@[e as int]);
                }
                lemma_word_len(t, e - i);
            }
            let mut w: Vec<char> = Vec::new();
            push_range(&mut w, v, i, e);
            let ghost before = out@;
            out.push(w);
            assert(texts(out@) =~= texts(before).push(v@.subrange(i as int, e as int)));
            assert(texts(before) + (seq![v@.subrange(i as int, e as int)] + words_from(v@, e as int))
                =~= texts(out@) + words_from(v@, e as int));
            i = e;
        }
    }
    assert(texts(out@) + words_from(v@, i as int) =~= texts(out@));
    out
}

/// Whether `c` is an ASCII decimal digit.
pub open spec fn is_digit(c: char) -> bool {
    '0' <= c <= '9'
}

/// The value of a string of decimal digits.
pub open spec fn digits_value(s: Seq<char>) -> nat
    decreases s.len(),
{
    if s.len() == 0 {
        0
    } else {
        digits_value(s.drop_last()) * 10 + ((s.last() as u32) - 48) as nat
    }
}

/// A view count as typed: one or more decimal digits whose value fits in
/// 32 bits.
pub open spec fn count_of(s: Seq<char>) -> Option<u32> {
    if s.len() > 0 && (forall|i: int| 0 <= i < s.len() ==> is_digit(#[trigger] s[i]))
        && digits_value(s) <= u32::MAX {
        Some(digits_value(s) as u32)
    } else {
        None
    }
}

proof fn lemma_digits_value_grows(s: Seq<char>, i: int)
    requires
        0 <= i <= s.len(),
        forall|j: int| 0 <= j < s.len() ==> is_digit(#[trigger] s[j]),
    ensures
        digits_value(s.take(i)) <= digits_value(s),
    decreases s.len() - i,
{
    if i < s.len() {
        let t = s.drop_last();
        assert forall|j: int| 0 <= j < t.len() implies is_digit(#[trigger] t[j]) by {
            assert(t[j] == s[j]);
        }
        lemma_digits_value_grows(t, i);
        assert(t.take(i) =~= s.take(i));
    } else {
        assert(s.take(i) =~= s);
    }
}

/// Law (decimal rendering reads back): the digits of `n` are one or more
/// decimal digits, with no leading zero unless `n` is zero, whose value is
/// `n`; a count that fits in 32 bits reads back as itself.
pub proof fn lemma_digits_read_back(n: nat)
    ensures
        digits(n).len() > 0,
        forall|i: int| 0 <= i < digits(n).len() ==> is_digit(#[trigger] digits(n)[i]),
        digits(n)[0] == '0' ==> n == 0,
        digits_value(digits(n)) == n,
        n <= u32::MAX ==> count_of(digits(n)) == Some(n as u32),
    decreases n,
{
    let d = digits(n);
    if n < 10 {
        let c = ((48 + n) as u32) as char;
        assert(d == seq![c]);
        assert(c as u32 == 48 + n);
        assert(d.drop_last() =~= Seq::<char>::empty());
        assert(digits_value(d.drop_last()) == 0);
    } else {
        lemma_digits_read_back(n / 10);
        let h = digits(n / 10);
        let c = ((48 + n % 10) as u32) as char;
        assert(d == h.push(c));
        assert(c as u32 == 48 + n % 10);
        assert(d.drop_last() =~= h);
        assert(d[0] == h[0]);
        assert forall|i: int| 0 <= i < d.len() implies is_digit(#[trigger] d[i]) by {
            if i < h.len() {
                assert(d[i] == h[i]);
            }
        }
        assert(digits_value(d) == digits_value(h) * 10 + n % 10);
        assert(n / 10 * 10 + n % 10 == n);
    }
}

/// Reads a typed view count.
pub fn parse_count(w: &Vec<char>) -> (r: Option<u32>)
    ensures
        r == count_of(w@),
{
    if w.len() == 0 {
        return None;
    }
    let mut value: u64 = 0;
    let mut i: usize = 0;
    assert(w@.take(0) =~= Seq::<char>::empty());
    while i < w.len()
        invariant
            0 < w@.len(),
            i <= w@.len(),
            forall|j: int| 0 <= j < i ==> is_digit(#[trigger] w@[j]),
            value == digits_value(w@.take(i as int)),
            value <= u32::MAX,
        decreases w@.len() - i,
    {
        let c = w[i];
        if !('0' <= c && c <= '9') {
            assert(!is_digit(w@[i as int]));
            return None;
        }
        let d = (c as u32 - 48) as u64;
        let ghost t = w@.take(i + 1);
        assert(t.drop_last() =~= w@.take(i as int));
        assert(t.last() == c);
        let next = value * 10 + d;
        if next > 0xffff_ffff {
            proof {
                assert forall|j: int| 0 <= j < t.len() implies is_digit(#[trigger] t[j]) by {
                    assert(t[j] == w@[j]);
                }
                if forall|j: int| 0 <= j < w@.len() ==> is_digit(#[trigger] w@[j]) {
                    lemma_digits_value_grows(w@, i + 1);
                }
            }
            return None;
        }
        value = next;
        i = i + 1;
    }
    assert(w@.take(w@.len() as int) =~= w@);
    Some(value as u32)
}

/// A command typed at a client.
pub enum ClientCommand {
    /// Send the image file at `image_path` to every server.
    Send { image_path: String },
    /// Ask the servers for the list of active clients.
    List,
    /// Grant a lease of `views` views on `image`.
    Lease { image: String, views: u32 },
    /// Ask the client at `host` for `image`.
    Request { image: String, host: String },
    /// Anything else.
    Invalid,
}

/// Reads a typed line. `None` when the line has no word, or the command
/// lacks the words it needs (`send` and `lease` one more, `request` two).
/// `lease <image> <views>` grants that many views, `lease <image>` the
/// default number; a view count that is not a number makes the line invalid.
pub fn parse_command(line: &str) -> (r: Option<ClientCommand>)
    ensures
        ({
            let w = words(line@);
            if w.len() == 0 {
                r is None
            } else if w[0] == "send"@ {
                if w.len() >= 2 {
                    r matches Some(ClientCommand::Send { image_path }) && image_path@ == w[1]
                } else {
                    r is None
                }
            } else if w[0] == "list"@ {
                r matches Some(ClientCommand::List)
            } else if w[0] == "lease"@ {
                if w.len() == 2 {
                    r matches Some(ClientCommand::Lease { image, views }) && image@ == w[1]
                        && views == DEFAULT_LEASE_VIEWS
                } else if w.len() >= 3 {
                    match count_of(w[2]) {
                        Some(n) => r matches Some(ClientCommand::Lease { image, views })
                            && image@ == w[1] && views == n,
                        None => r matches Some(ClientCommand::Invalid),
                    }
                } else {
                    r is None
                }
            } else if w[0] == "request"@ {
                if w.len() >= 3 {
                    r matches Some(ClientCommand::Request { image, host }) && image@ == w[1]
                        && host@ == w[2]
                } else {
                    r is None
                }
            } else {
                r matches Some(ClientCommand::Invalid)
            }
        }),
{
    let v = chars_of(line);
    let w = split_words(&v);
    if w.len() == 0 {
        return None;
    }
    if spells(&w[0], "send") {
        if w.len() >= 2 {
            Some(ClientCommand::Send { image_path: string_from_chars(w[1].as_slice()) })
        } else {
            None
        }
    } else if spells(&w[0], "list") {
        Some(ClientCommand::List)
    } else if spells(&w[0], "lease") {
        if w.len() == 2 {
            Some(
                ClientCommand::Lease {
                    image: string_from_chars(w[1].as_slice()),
                    views: DEFAULT_LEASE_VIEWS,
                },
            )
        } else if w.len() >= 3 {
            match parse_count(&w[2]) {
                Some(n) => Some(
                    ClientCommand::Lease { image: string_from_chars(w[1].as_slice()), views: n },
                ),
                None => Some(ClientCommand::Invalid),
            }
        } else {
            None
        }
    } else if spells(&w[0], "request") {
        if w.len() >= 3 {
            Some(
                ClientCommand::Request {
                    image: string_from_chars(w[1].as_slice()),
                    host: string_from_chars(w[2].as_slice()),
                },
            )
        } else {
            None
        }
    } else {
        Some(ClientCommand::Invalid)
    }
}

/// The text of a request for `image` sent to another client.
pub fn request_text(image: &str) -> (r: String)
    ensures
        r@ == "Can I have "@ + image@ + "?"@,
{
    let mut out: Vec<char> = Vec::new();
    push_str(&mut out, "Can I have ");
    push_str(&mut out, image);
    push_str(&mut out, "?");
    string_from_chars(out.as_slice())
}

/// The address of the client at `host`: every client listens on port 1939.
pub fn peer_address(host: &str) -> (r: String)
    ensures
        r@ == host@ + ":1939"@,
{
    let mut out: Vec<char> = Vec::new();
    push_str(&mut out, host);
    push_str(&mut out, ":1939");
    string_from_chars(out.as_slice())
}

} // verus!
