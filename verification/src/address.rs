//! Server addresses: the `ip:port` strings that the servers bind to.

use vstd::prelude::*;
use crate::text::{chars_of, find, find_from, push_range, string_from_chars, lemma_find, lemma_find_props};

verus! {

/// The port part of `ip:port[:...]`: what lies between the first `:` and
/// the next `:` (or the end).
pub open spec fn port_of(s: Seq<char>) -> Seq<char> {
    let rest = s.skip(find(s, ':') as int + 1);
    rest.take(find(rest, ':') as int)
}

/// `s` has a `:` and a port whose first digit is `1` to `9`.
pub open spec fn has_decrementable_port(s: Seq<char>) -> bool {
    &&& find(s, ':') < s.len()
    &&& port_of(s).len() > 0
    &&& '1' <= port_of(s)[0] <= '9'
}

/// The digit one below `c` (`c` being `1` to `9`).
pub open spec fn digit_below(c: char) -> char {
    match c {
        '1' => '0',
        '2' => '1',
        '3' => '2',
        '4' => '3',
        '5' => '4',
        '6' => '5',
        '7' => '6',
        '8' => '7',
        _ => '8',
    }
}

fn lower_digit(c: char) -> (r: char)
    ensures
        r == digit_below(c),
{
    match c {
        '1' => '0',
        '2' => '1',
        '3' => '2',
        '4' => '3',
        '5' => '4',
        '6' => '5',
        '7' => '6',
        '8' => '7',
        _ => '8',
    }
}

/// The address of the companion socket: the text before the first `:`,
/// a `:`, and the port with its first digit lowered by one. Whatever
/// follows a second `:` is dropped.
pub open spec fn decremented_address(s: Seq<char>) -> Seq<char> {
    let port = port_of(s);
    s.take(find(s, ':') as int) + seq![':', digit_below(port[0])] + port.skip(1)
}

/// The address one below `addr` in its port's leading digit: each server
/// binds its server-to-server socket there (`0.0.0.0:8888` gives
/// `0.0.0.0:7888`).
pub fn decrement_port(addr: &str) -> (r: String)
    requires
        has_decrementable_port(addr@),
    ensures
        r@ == decremented_address(addr@),
{
    let s = chars_of(addr);
    let colon = find_from(&s, 0, ':');
    assert(s@.skip(0) =~= s@);
    assert(colon < s.len());
    let start = colon + 1;
    let end = find_from(&s, start, ':');
    let mut out: Vec<char> = Vec::new();
    push_range(&mut out, &s, 0, colon);
    out.push(':');
    let d = s[start];
    let lowered = lower_digit(d);
    out.push(lowered);
    push_range(&mut out, &s, start + 1, end);
    proof {
        let rest = s@.skip(start as int);
        assert(port_of(s@) =~= s@.subrange(start as int, end as int));
        assert(out@ =~= decremented_address(s@));
    }
    string_from_chars(out.as_slice())
}

/// Whether `decrement_port` accepts `addr`.
pub fn can_decrement_port(addr: &str) -> (r: bool)
    ensures
        r == has_decrementable_port(addr@),
{
    let s = chars_of(addr);
    let colon = find_from(&s, 0, ':');
    assert(s@.skip(0) =~= s@);
    if colon >= s.len() {
        return false;
    }
    let start = colon + 1;
    let end = find_from(&s, start, ':');
    assert(port_of(s@) =~= s@.subrange(start as int, end as int));
    end > start && '1' <= s[start] && s[start] <= '9'
}

/// The position of `addr` in `addresses`: the first entry equal to it.
pub fn server_index(addresses: &Vec<String>, addr: &str) -> (r: Option<usize>)
    ensures
        match r {
            Some(i) => i < addresses@.len() && addresses@[i as int]@ == addr@ && forall|j: int|
                0 <= j < i ==> addresses@[j]@ != addr@,
            None => forall|j: int| 0 <= j < addresses@.len() ==> addresses@[j]@ != addr@,
        },
{
    let target = String::from_str(addr);
    let mut i: usize = 0;
    while i < addresses.len()
        invariant
            i <= addresses@.len(),
            target@ == addr@,
            forall|j: int| 0 <= j < i ==> addresses@[j]@ != addr@,
        decreases addresses@.len() - i,
    {
        if addresses[i] == target {
            return Some(i);
        }
        i = i + 1;
    }
    None
}

/// Whether `s` holds exactly one `:`.
pub open spec fn single_colon(s: Seq<char>) -> bool {
    find(s, ':') < s.len() && forall|j: int| 0 <= j < s.len() && s[j] == ':' ==> j == find(s, ':')
}

proof fn lemma_decrement_one_char(a: Seq<char>)
    requires
        has_decrementable_port(a),
        single_colon(a),
    ensures
        decremented_address(a) == a.update(find(a, ':') as int + 1, digit_below(a[find(a, ':') as int + 1])),
        '1' <= a[find(a, ':') as int + 1] <= '9',
{
    let i = find(a, ':') as int;
    lemma_find_props(a, ':');
    let rest = a.skip(i + 1);
    lemma_find_props(rest, ':');
    assert forall|j: int| 0 <= j < rest.len() implies rest[j] != ':' by {
        assert(rest[j] == a[i + 1 + j]);
    }
    lemma_find(rest, ':', rest.len() as int);
    assert(port_of(a) =~= rest);
    let d = digit_below(a[i + 1]);
    assert(decremented_address(a) =~= a.update(i + 1, d));
}

/// Law (companion addresses): for addresses with exactly one `:` and a
/// port whose first digit is `1` to `9`, the companion address has the
/// same length, differs from the address, and different addresses have
/// different companions.
pub proof fn lemma_decrement_port_injective(a: Seq<char>, b: Seq<char>)
    requires
        has_decrementable_port(a),
        single_colon(a),
        has_decrementable_port(b),
        single_colon(b),
    ensures
        decremented_address(a).len() == a.len(),
        decremented_address(a) != a,
        (decremented_address(a) == decremented_address(b)) == (a == b),
{
    lemma_decrement_one_char(a);
    lemma_decrement_one_char(b);
    let ia = find(a, ':') as int;
    let ib = find(b, ':') as int;
    lemma_find_props(a, ':');
    lemma_find_props(b, ':');
    let da = decremented_address(a);
    let db = decremented_address(b);
    assert(da[ia + 1] != a[ia + 1]);
    assert(da.len() == a.len());
    assert(db.len() == b.len());
    if da == db {
        if ia < ib {
            assert(db[ia] == b[ia]);
            assert(da[ia] == ':');
        } else if ib < ia {
            assert(da[ib] == a[ib]);
            assert(db[ib] == ':');
        }
        assert(ia == ib);
        assert(a.len() == b.len());
        assert forall|j: int| 0 <= j < a.len() implies a[j] == b[j] by {
            if j != ia + 1 {
                assert(da[j] == a[j]);
                assert(db[j] == b[j]);
            } else {
                assert(digit_below(a[j]) == digit_below(b[j]));
            }
        }
        assert(a =~= b);
    }
}

/// Law (one below): for each port digit `1` to `9`, `digit_below` is the
/// digit whose value is one less.
pub proof fn lemma_digit_below_is_one_less(c: char)
    requires
        '1' <= c <= '9',
    ensures
        '0' <= digit_below(c) <= '8',
        (digit_below(c) as u32) == (c as u32) - 1,
{
    let u = c as u32;
    assert(49 <= u <= 57);
    if u == 49 {
        assert(c == '1');
    } else if u == 50 {
        assert(c == '2');
    } else if u == 51 {
        assert(c == '3');
    } else if u == 52 {
        assert(c == '4');
    } else if u == 53 {
        assert(c == '5');
    } else if u == 54 {
        assert(c == '6');
    } else if u == 55 {
        assert(c == '7');
    } else if u == 56 {
        assert(c == '8');
    } else {
        assert(c == '9');
    }
}

/// Law (companion address): where `addr[i]` is the first `:` and `k` is
/// the position of the next `:` (or the end), and the port's first digit
/// is `1` to `9`, the companion address is `addr` up to `k` with that
/// digit lowered by one in value and every other character kept.
pub proof fn lemma_decrement_port_lowers_digit(a: Seq<char>, i: int, k: int)
    requires
        0 <= i,
        i + 1 < k <= a.len(),
        a[i] == ':',
        forall|j: int| 0 <= j < k && j != i ==> a[j] != ':',
        k == a.len() || a[k] == ':',
        '1' <= a[i + 1] <= '9',
    ensures
        has_decrementable_port(a),
        decremented_address(a) == a.take(k).update(i + 1, (((a[i + 1] as u32) - 1) as char)),
        decremented_address(a).len() == k,
{
    lemma_find(a, ':', i);
    let rest = a.skip(i + 1);
    assert forall|j: int| 0 <= j < k - i - 1 implies rest[j] != ':' by {
        assert(rest[j] == a[i + 1 + j]);
    }
    if k < a.len() {
        assert(rest[k - i - 1] == a[k]);
    }
    lemma_find(rest, ':', k - i - 1);
    assert(port_of(a) =~= a.subrange(i + 1, k));
    lemma_digit_below_is_one_less(a[i + 1]);
    let d = digit_below(a[i + 1]);
    assert(d == (((a[i + 1] as u32) - 1) as char));
    assert(decremented_address(a) =~= a.take(k).update(i + 1, d));
}

} // verus!
