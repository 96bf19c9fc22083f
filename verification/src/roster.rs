//! The record of what a server has taken from clients, and the client list
//! it sends back for a `list` command.

use vstd::prelude::*;
use crate::text::{chars_of, find, find_from, push_range, string_from_chars};

verus! {

broadcast use vstd::seq_lib::group_seq_properties;

/// The `(client address, datagram size)` pairs a server has taken, in the
/// order it took them, each once.
pub struct ProcessedLog {
    entries: Vec<(String, usize)>,
}

impl View for ProcessedLog {
    type V = Seq<(Seq<char>, usize)>;

    closed spec fn view(&self) -> Seq<(Seq<char>, usize)> {
        self.entries@.map_values(|e: (String, usize)| (e.0@, e.1))
    }
}

impl ProcessedLog {
    /// No pair is taken twice.
    #[verifier::type_invariant]
    spec fn each_once(self) -> bool {
        self@.no_duplicates()
    }

    /// An empty record.
    pub fn new() -> (r: Self)
        ensures
            r@ == Seq::<(Seq<char>, usize)>::empty(),
    {
        let r = ProcessedLog { entries: Vec::new() };
        assert(r@ =~= Seq::<(Seq<char>, usize)>::empty());
        r
    }

    /// Whether `(client, size)` has been taken.
    pub fn contains(&self, client: &String, size: usize) -> (r: bool)
        ensures
            r == self@.contains((client@, size)),
    {
        let mut i: usize = 0;
        while i < self.entries.len()
            invariant
                i <= self.entries@.len(),
                forall|j: int| 0 <= j < i ==> self@[j] != (client@, size),
            decreases self.entries@.len() - i,
        {
            if self.entries[i].1 == size && self.entries[i].0 == *client {
                assert(self@[i as int] == (client@, size));
                return true;
            }
            i = i + 1;
        }
        false
    }

    /// Takes `(client, size)` unless it was taken before; says whether it is new.
    pub fn record(&mut self, client: &String, size: usize) -> (fresh: bool)
        ensures
            fresh == !old(self)@.contains((client@, size)),
            final(self)@ == (if fresh {
                old(self)@.push((client@, size))
            } else {
                old(self)@
            }),
            final(self)@.no_duplicates(),
    {
        proof {
            use_type_invariant(&*self);
        }
        if self.contains(client, size) {
            false
        } else {
            let mut taken = ProcessedLog::new();
            std::mem::swap(&mut taken, self);
            let ProcessedLog { mut entries } = taken;
            let ghost before = entries@;
            entries.push((client.clone(), size));
            let ghost pair = (client@, size);
            proof {
                let old_view = before.map_values(|e: (String, usize)| (e.0@, e.1));
                let new_view = entries@.map_values(|e: (String, usize)| (e.0@, e.1));
                assert(new_view =~= old_view.push(pair));
                assert forall|i: int, j: int|
                    0 <= i < new_view.len() && 0 <= j < new_view.len() && i != j implies
                        new_view[i] != new_view[j] by {
                    if i < old_view.len() && j < old_view.len() {
                    } else if i < old_view.len() {
                        assert(old_view.contains(new_view[i]));
                    } else {
                        assert(old_view.contains(new_view[j]));
                    }
                }
            }
            *self = ProcessedLog { entries };
            assert(self@ =~= old(self)@.push((client@, size)));
            true
        }
    }

    /// The number of pairs taken.
    pub fn len(&self) -> (n: usize)
        ensures
            n == self@.len(),
    {
        self.entries.len()
    }
}

/// The text that lists every record, one `Client Active: <client>` line each.
pub open spec fn listing_text(e: Seq<(Seq<char>, usize)>) -> Seq<char>
    decreases e.len(),
{
    if e.len() == 0 {
        seq![]
    } else {
        listing_text(e.drop_last()) + "Client Active: "@ + e.last().0 + seq!['\n']
    }
}

/// `s` cut at every `c` (what `str::split` gives for a single character).
pub open spec fn split_on(s: Seq<char>, c: char) -> Seq<Seq<char>>
    decreases s.len(),
{
    let i = find(s, c);
    if i >= s.len() {
        seq![s]
    } else {
        seq![s.take(i as int)] + split_on(s.skip(i as int + 1), c)
    }
}

/// The parts joined with a newline between each two.
pub open spec fn join_lines(parts: Seq<Seq<char>>) -> Seq<char>
    decreases parts.len(),
{
    if parts.len() == 0 {
        seq![]
    } else if parts.len() == 1 {
        parts[0]
    } else {
        join_lines(parts.drop_last()) + seq!['\n'] + parts.last()
    }
}

/// Lexicographic order by code point, a proper prefix first (the order of `str`).
pub open spec fn lex_lt(a: Seq<char>, b: Seq<char>) -> bool
    decreases a.len(),
{
    if a.len() == 0 {
        b.len() > 0
    } else if b.len() == 0 {
        false
    } else if a[0] != b[0] {
        (a[0] as u32) < (b[0] as u32)
    } else {
        lex_lt(a.drop_first(), b.drop_first())
    }
}

/// Strictly ascending in `lex_lt`: sorted, and nothing twice.
pub open spec fn strictly_ascending(s: Seq<Seq<char>>) -> bool {
    forall|i: int, j: int| 0 <= i < j < s.len() ==> lex_lt(s[i], s[j])
}

/// The reply to `list`: a heading, then the distinct lines of the listing
/// in ascending order, joined by newlines. The empty line that follows the
/// last newline of the listing is one of them, and sorts first.
pub open spec fn client_list_reply(e: Seq<(Seq<char>, usize)>, r: Seq<char>) -> bool {
    exists|lines: Seq<Seq<char>>|
        #![trigger join_lines(lines)]
        strictly_ascending(lines) && lines.to_set() == split_on(listing_text(e), '\n').to_set()
            && r == "Client List:"@ + join_lines(lines)
}

proof fn lemma_lex_irreflexive(a: Seq<char>)
    ensures
        !lex_lt(a, a),
    decreases a.len(),
{
    if a.len() > 0 {
        lemma_lex_irreflexive(a.drop_first());
    }
}

proof fn lemma_lex_total(a: Seq<char>, b: Seq<char>)
    ensures
        a == b || lex_lt(a, b) || lex_lt(b, a),
        !(lex_lt(a, b) && lex_lt(b, a)),
    decreases a.len(),
{
    if a.len() > 0 && b.len() > 0 && a[0] == b[0] {
        lemma_lex_total(a.drop_first(), b.drop_first());
        if a.drop_first() == b.drop_first() {
            assert(a =~= seq![a[0]] + a.drop_first());
            assert(b =~= seq![b[0]] + b.drop_first());
        }
    } else if a.len() == 0 && b.len() == 0 {
        assert(a =~= b);
    } else if a.len() > 0 && b.len() > 0 {
        vstd::utf8::char_u32_cast(a[0], a[0] as u32);
        vstd::utf8::char_u32_cast(b[0], b[0] as u32);
    }
}

proof fn lemma_lex_transitive(a: Seq<char>, b: Seq<char>, c: Seq<char>)
    requires
        lex_lt(a, b),
        lex_lt(b, c),
    ensures
        lex_lt(a, c),
    decreases a.len(),
{
    if a.len() > 0 && b.len() > 0 && c.len() > 0 && a[0] == b[0] && b[0] == c[0] {
        lemma_lex_transitive(a.drop_first(), b.drop_first(), c.drop_first());
    }
}

proof fn lemma_lex_skip(a: Seq<char>, b: Seq<char>, i: int)
    requires
        0 <= i <= a.len(),
        i <= b.len(),
        a.take(i) == b.take(i),
    ensures
        lex_lt(a, b) == lex_lt(a.skip(i), b.skip(i)),
    decreases i,
{
    if i > 0 {
        assert(a[0] == a.take(i)[0]);
        assert(b[0] == b.take(i)[0]);
        assert(a.drop_first().take(i - 1) =~= a.take(i).drop_first());
        assert(b.drop_first().take(i - 1) =~= b.take(i).drop_first());
        lemma_lex_skip(a.drop_first(), b.drop_first(), i - 1);
        assert(a.drop_first().skip(i - 1) =~= a.skip(i));
        assert(b.drop_first().skip(i - 1) =~= b.skip(i));
    } else {
        assert(a.skip(0) =~= a);
        assert(b.skip(0) =~= b);
    }
}

/// Law (the order of `str`): a text comes before its proper extensions;
/// and after a common prefix, the first differing characters decide by
/// code point, whatever follows them.
pub proof fn lemma_lex_order(p: Seq<char>, x: Seq<char>, y: Seq<char>, a: char, b: char)
    ensures
        lex_lt(p, p + x) == (x.len() > 0),
        !lex_lt(p + x, p),
        a != b ==> lex_lt(p + seq![a] + x, p + seq![b] + y) == ((a as u32) < (b as u32)),
{
    let n = p.len() as int;
    let px = p + x;
    assert(px.take(n) =~= p.take(n));
    lemma_lex_skip(p, px, n);
    lemma_lex_skip(px, p, n);
    assert(px.skip(n) =~= x);
    assert(p.skip(n).len() == 0);
    let s = p + seq![a] + x;
    let t = p + seq![b] + y;
    assert(s.take(n) =~= t.take(n));
    lemma_lex_skip(s, t, n);
    assert(s.skip(n)[0] == a);
    assert(t.skip(n)[0] == b);
    if a != b {
        vstd::utf8::char_u32_cast(a, a as u32);
        vstd::utf8::char_u32_cast(b, b as u32);
    }
}

/// The outcome of comparing two texts.
#[derive(PartialEq, Eq, Structural, Debug, Clone, Copy)]
pub enum Order {
    Less,
    Equal,
    Greater,
}

/// Compares two texts in `lex_lt` order.
pub fn compare_text(a: &Vec<char>, b: &Vec<char>) -> (r: Order)
    ensures
        (r == Order::Less) == lex_lt(a@, b@),
        (r == Order::Equal) == (a@ == b@),
        (r == Order::Greater) == lex_lt(b@, a@),
{
    proof {
        lemma_lex_total(a@, b@);
        lemma_lex_irreflexive(a@);
    }
    let mut i: usize = 0;
    while i < a.len() && i < b.len() && a[i] == b[i]
        invariant
            i <= a@.len(),
            i <= b@.len(),
            a@.take(i as int) == b@.take(i as int),
        decreases a@.len() - i,
    {
        assert(a@.take(i + 1) =~= a@.take(i as int).push(a@[i as int]));
        assert(b@.take(i + 1) =~= b@.take(i as int).push(b@[i as int]));
        i = i + 1;
    }
    proof {
        lemma_lex_skip(a@, b@, i as int);
        lemma_lex_skip(b@, a@, i as int);
    }
    if i == a.len() && i == b.len() {
        assert(a@ =~= a@.take(i as int));
        assert(b@ =~= b@.take(i as int));
        Order::Equal
    } else if i == a.len() {
        assert(a@.skip(i as int).len() == 0);
        Order::Less
    } else if i == b.len() {
        assert(b@.skip(i as int).len() == 0);
        Order::Greater
    } else if (a[i] as u32) < (b[i] as u32) {
        assert(a@.skip(i as int)[0] == a@[i as int]);
        assert(b@.skip(i as int)[0] == b@[i as int]);
        Order::Less
    } else {
        assert(a@.skip(i as int)[0] == a@[i as int]);
        assert(b@.skip(i as int)[0] == b@[i as int]);
        Order::Greater
    }
}

/// The texts held by a vector of character vectors.
pub open spec fn texts(v: Seq<Vec<char>>) -> Seq<Seq<char>> {
    v.map_values(|x: Vec<char>| x@)
}

/// Adds `p` to a strictly ascending vector of texts, keeping it so.
fn insert_sorted(out: &mut Vec<Vec<char>>, p: Vec<char>)
    requires
        strictly_ascending(texts(old(out)@)),
    ensures
        strictly_ascending(texts(final(out)@)),
        texts(final(out)@).to_set() == texts(old(out)@).to_set().insert(p@),
{
    let ghost old_t = texts(out@);
    let mut k: usize = 0;
    while k < out.len() && compare_text(&out[k], &p) == Order::Less
        invariant
            k <= out@.len(),
            out@ == old(out)@,
            forall|j: int| 0 <= j < k ==> lex_lt(out@[j]@, p@),
        decreases out@.len() - k,
    {
        k = k + 1;
    }
    if k < out.len() && compare_text(&out[k], &p) == Order::Equal {
        proof {
            assert(old_t[k as int] == p@);
            assert(old_t.to_set().insert(p@) =~= old_t.to_set());
        }
        return;
    }
    proof {
        if k < out.len() {
            lemma_lex_total(out@[k as int]@, p@);
        }
    }
    let ghost pv = p@;
    out.insert(k, p);
    proof {
        let t = texts(out@);
        assert(t =~= old_t.insert(k as int, pv));
        assert forall|i: int, j: int| 0 <= i < j < t.len() implies lex_lt(t[i], t[j]) by {
            if j < k {
                assert(t[i] == old_t[i] && t[j] == old_t[j]);
            } else if j == k {
                assert(t[i] == old_t[i]);
            } else if i == k {
                assert(t[j] == old_t[j - 1]);
                if j - 1 > k {
                    lemma_lex_transitive(pv, old_t[k as int], old_t[j - 1]);
                }
            } else if i < k {
                assert(t[i] == old_t[i] && t[j] == old_t[j - 1]);
            } else {
                assert(t[i] == old_t[i - 1] && t[j] == old_t[j - 1]);
            }
        }
        assert forall|x: Seq<char>| t.to_set().contains(x) == old_t.to_set().insert(pv).contains(
            x,
        ) by {
            if t.contains(x) {
                let i = choose|i: int| 0 <= i < t.len() && t[i] == x;
                if i < k {
                    assert(old_t[i] == x);
                } else if i > k {
                    assert(old_t[i - 1] == x);
                }
            }
            if old_t.contains(x) {
                let i = choose|i: int| 0 <= i < old_t.len() && old_t[i] == x;
                if i < k {
                    assert(t[i] == x);
                } else {
                    assert(t[i + 1] == x);
                }
            }
            if x == pv {
                assert(t[k as int] == x);
            }
        }
        assert(t.to_set() =~= old_t.to_set().insert(pv));
    }
}

/// Cuts a text at every newline.
fn split_lines(text: &Vec<char>) -> (parts: Vec<Vec<char>>)
    ensures
        texts(parts@) == split_on(text@, '\n'),
{
    let mut parts: Vec<Vec<char>> = Vec::new();
    let mut start: usize = 0;
    assert(text@.skip(0) =~= text@);
    loop
        invariant_except_break
            start <= text@.len(),
            split_on(text@, '\n') == texts(parts@) + split_on(text@.skip(start as int), '\n'),
        ensures
            texts(parts@) == split_on(text@, '\n'),
        decreases text@.len() - start,
    {
        let e = find_from(text, start, '\n');
        let mut piece: Vec<char> = Vec::new();
        push_range(&mut piece, text, start, e);
        let ghost rest = text@.skip(start as int);
        let ghost before = parts@;
        parts.push(piece);
        proof {
            assert(texts(parts@) =~= texts(before).push(piece@));
            assert(piece@ =~= rest.take(e - start));
        }
        if e == text.len() {
            proof {
                assert(piece@ =~= rest);
                assert(split_on(rest, '\n') =~= seq![rest]);
                assert(texts(before) + seq![rest] =~= texts(parts@));
            }
            break;
        }
        proof {
            assert(rest.skip(e - start + 1) =~= text@.skip(e + 1));
            assert(texts(before) + split_on(rest, '\n') =~= texts(parts@) + split_on(
                text@.skip(e + 1),
                '\n',
            ));
        }
        start = e + 1;
    }
    parts
}

/// Joins texts with a newline between each two, after `out`.
fn append_joined(out: &mut Vec<char>, parts: &Vec<Vec<char>>)
    ensures
        final(out)@ == old(out)@ + join_lines(texts(parts@)),
{
    let ghost t = texts(parts@);
    let mut k: usize = 0;
    assert(t.take(0) =~= Seq::<Seq<char>>::empty());
    while k < parts.len()
        invariant
            k <= parts@.len(),
            t == texts(parts@),
            out@ == old(out)@ + join_lines(t.take(k as int)),
        decreases parts@.len() - k,
    {
        let ghost before = out@;
        if k > 0 {
            out.push('\n');
        }
        let piece = &parts[k];
        push_range(out, piece, 0, piece.len());
        proof {
            assert(piece@.subrange(0, piece@.len() as int) =~= piece@);
            let tk = t.take(k + 1);
            assert(tk.drop_last() =~= t.take(k as int));
            assert(tk.last() == piece@);
            if k == 0 {
                assert(join_lines(tk) == tk[0]);
            }
            assert(out@ =~= old(out)@ + join_lines(tk));
        }
        k = k + 1;
    }
    assert(t.take(parts@.len() as int) =~= t);
}

impl ProcessedLog {
    /// The listing: one `Client Active: <client>` line per record.
    fn listing(&self) -> (r: Vec<char>)
        ensures
            r@ == listing_text(self@),
    {
        let mut out: Vec<char> = Vec::new();
        let prefix = chars_of("Client Active: ");
        let mut i: usize = 0;
        assert(self@.take(0) =~= Seq::<(Seq<char>, usize)>::empty());
        while i < self.entries.len()
            invariant
                i <= self.entries@.len(),
                prefix@ == "Client Active: "@,
                out@ == listing_text(self@.take(i as int)),
            decreases self.entries@.len() - i,
        {
            push_range(&mut out, &prefix, 0, prefix.len());
            let name = chars_of(self.entries[i].0.as_str());
            push_range(&mut out, &name, 0, name.len());
            out.push('\n');
            proof {
                let e = self@.take(i + 1);
                assert(e.drop_last() =~= self@.take(i as int));
                assert(e.last() == self@[i as int]);
                assert(prefix@.subrange(0, prefix@.len() as int) =~= prefix@);
                assert(name@.subrange(0, name@.len() as int) =~= name@);
                assert(out@ =~= listing_text(e));
            }
            i = i + 1;
        }
        assert(self@.take(self@.len() as int) =~= self@);
        out
    }
}

/// The reply to a `list` command: `Client List:` followed by the distinct
/// `Client Active: <client>` lines in ascending order, each after a newline.
pub fn handle_list_command(processed: &ProcessedLog) -> (r: String)
    ensures
        client_list_reply(processed@, r@),
{
    let text = processed.listing();
    let mut pieces = split_lines(&text);
    let ghost all = texts(pieces@);
    let mut sorted: Vec<Vec<char>> = Vec::new();
    assert(texts(sorted@).to_set() + texts(pieces@).to_set() =~= all.to_set());
    while pieces.len() > 0
        invariant
            strictly_ascending(texts(sorted@)),
            texts(sorted@).to_set() + texts(pieces@).to_set() == all.to_set(),
        decreases pieces@.len(),
    {
        let ghost before = pieces@;
        let p = pieces.pop().unwrap();
        let ghost before_sorted = texts(sorted@);
        insert_sorted(&mut sorted, p);
        proof {
            assert(texts(before) =~= texts(pieces@).push(p@));
            assert(texts(before).to_set() =~= texts(pieces@).to_set().insert(p@));
            assert(texts(sorted@).to_set() + texts(pieces@).to_set() =~= before_sorted.to_set()
                + texts(before).to_set());
        }
    }
    assert(texts(pieces@).to_set() =~= Set::<Seq<char>>::empty());
    assert(texts(sorted@).to_set() =~= all.to_set());
    let mut out = chars_of("Client List:");
    append_joined(&mut out, &sorted);
    assert(out@ == "Client List:"@ + join_lines(texts(sorted@)));
    string_from_chars(out.as_slice())
}

/// The line that lists `client`.
pub open spec fn active_line(client: Seq<char>) -> Seq<char> {
    "Client Active: "@ + client
}

/// Whether `c` is the address of some record.
pub open spec fn records_client(e: Seq<(Seq<char>, usize)>, c: Seq<char>) -> bool {
    exists|i: int| 0 <= i < e.len() && e[i].0 == c
}

/// Whether no recorded client address holds a newline.
pub open spec fn single_line_clients(e: Seq<(Seq<char>, usize)>) -> bool {
    forall|i: int, j: int| 0 <= i < e.len() && 0 <= j < e[i].0.len() ==> e[i].0[j] != '\n'
}

proof fn lemma_listing_front(e: Seq<(Seq<char>, usize)>)
    requires
        e.len() > 0,
    ensures
        listing_text(e) == active_line(e[0].0) + seq!['\n'] + listing_text(e.drop_first()),
    decreases e.len(),
{
    if e.len() > 1 {
        lemma_listing_front(e.drop_last());
        assert(e.drop_last().drop_first() =~= e.drop_first().drop_last());
        assert(e.drop_last()[0] == e[0]);
        assert(e.drop_first().last() == e.last());
    } else {
        assert(e.drop_first().len() == 0);
        assert(e.drop_last().len() == 0);
        assert(listing_text(e.drop_last()) == Seq::<char>::empty());
        assert(listing_text(e.drop_first()) == Seq::<char>::empty());
        assert(e.last() == e[0]);
        assert(listing_text(e) =~= active_line(e[0].0) + seq!['\n']);
    }
}

proof fn lemma_split_first_line(l: Seq<char>, r: Seq<char>)
    requires
        forall|j: int| 0 <= j < l.len() ==> l[j] != '\n',
    ensures
        split_on(l + seq!['\n'] + r, '\n') == seq![l] + split_on(r, '\n'),
{
    let s = l + seq!['\n'] + r;
    crate::text::lemma_find(s, '\n', l.len() as int);
    assert(s.take(l.len() as int) =~= l);
    assert(s.skip(l.len() as int + 1) =~= r);
}

/// The pieces of the listing: one line per record, then the empty text
/// after the last newline.
proof fn lemma_listing_pieces(e: Seq<(Seq<char>, usize)>)
    requires
        single_line_clients(e),
    ensures
        split_on(listing_text(e), '\n') == e.map_values(
            |x: (Seq<char>, usize)| active_line(x.0),
        ).push(Seq::empty()),
    decreases e.len(),
{
    reveal_strlit("Client Active: ");
    if e.len() == 0 {
        crate::text::lemma_find(Seq::<char>::empty(), '\n', 0);
        assert(split_on(Seq::<char>::empty(), '\n') =~= seq![Seq::<char>::empty()]);
        assert(e.map_values(|x: (Seq<char>, usize)| active_line(x.0)).push(Seq::empty())
            =~= seq![Seq::<char>::empty()]);
    } else {
        lemma_listing_front(e);
        let rest = e.drop_first();
        assert forall|i: int, j: int| 0 <= i < rest.len() && 0 <= j < rest[i].0.len() implies rest[i].0[j]
            != '\n' by {
            assert(rest[i] == e[i + 1]);
        }
        lemma_listing_pieces(rest);
        let l = active_line(e[0].0);
        assert forall|j: int| 0 <= j < l.len() implies l[j] != '\n' by {
            if j >= 15 {
                assert(l[j] == e[0].0[j - 15]);
            }
        }
        lemma_split_first_line(l, listing_text(rest));
        assert(e.map_values(|x: (Seq<char>, usize)| active_line(x.0)).push(Seq::empty()) =~= seq![l]
            + rest.map_values(|x: (Seq<char>, usize)| active_line(x.0)).push(Seq::empty()));
    }
}

/// Law (client list): when no client address holds a newline, the lines of
/// a `list` reply are the empty line and one `Client Active: <client>` line
/// for each recorded client, and nothing else.
pub proof fn lemma_list_names_recorded_clients(e: Seq<(Seq<char>, usize)>, lines: Seq<Seq<char>>)
    requires
        single_line_clients(e),
        lines.to_set() == split_on(listing_text(e), '\n').to_set(),
    ensures
        lines.contains(Seq::<char>::empty()),
        forall|c: Seq<char>| lines.contains(#[trigger] active_line(c)) <==> records_client(e, c),
        forall|x: Seq<char>|
            lines.contains(x) ==> x == Seq::<char>::empty() || exists|i: int|
                0 <= i < e.len() && x == active_line(e[i].0),
{
    reveal_strlit("Client Active: ");
    lemma_listing_pieces(e);
    let pieces = split_on(listing_text(e), '\n');
    let mapped = e.map_values(|x: (Seq<char>, usize)| active_line(x.0));
    assert(pieces == mapped.push(Seq::empty()));
    assert(pieces[pieces.len() - 1] == Seq::<char>::empty());
    assert(pieces.to_set().contains(Seq::<char>::empty()));
    assert forall|x: Seq<char>| lines.contains(x) <==> pieces.contains(x) by {
        assert(lines.to_set().contains(x) == pieces.to_set().contains(x));
    }
    assert forall|c: Seq<char>| lines.contains(#[trigger] active_line(c)) <==> records_client(e, c) by {
        if lines.contains(active_line(c)) {
            let k = choose|k: int| 0 <= k < pieces.len() && pieces[k] == active_line(c);
            assert(active_line(c).len() == 15 + c.len());
            if k < e.len() {
                assert(pieces[k] == active_line(e[k].0));
                assert(active_line(e[k].0).skip(15) =~= e[k].0);
                assert(active_line(c).skip(15) =~= c);
            } else {
                assert(pieces[k].len() == 0);
            }
        }
        if records_client(e, c) {
            let i = choose|i: int| 0 <= i < e.len() && e[i].0 == c;
            assert(pieces[i] == active_line(c));
        }
    }
    assert forall|x: Seq<char>| lines.contains(x) implies x == Seq::<char>::empty() || exists|i: int|
        0 <= i < e.len() && x == active_line(e[i].0) by {
        let k = choose|k: int| 0 <= k < pieces.len() && pieces[k] == x;
        if k < e.len() {
            assert(pieces[k] == active_line(e[k].0));
        }
    }
}

/// Law: a strictly ascending sequence is fixed by its set of elements, so
/// `client_list_reply` admits one reply only.
pub proof fn lemma_ascending_unique(a: Seq<Seq<char>>, b: Seq<Seq<char>>)
    requires
        strictly_ascending(a),
        strictly_ascending(b),
        a.to_set() == b.to_set(),
    ensures
        a == b,
    decreases a.len(),
{
    assert forall|x: Seq<char>| a.contains(x) <==> b.contains(x) by {
        assert(a.to_set().contains(x) == a.contains(x));
        assert(b.to_set().contains(x) == b.contains(x));
        assert(a.to_set().contains(x) == b.to_set().contains(x));
    }
    if a.len() == 0 {
        if b.len() > 0 {
            assert(b.contains(b[0]));
        }
        assert(a =~= b);
    } else {
        assert(a.contains(a[0]));
        assert(b.len() > 0);
        assert(b.contains(b[0]));
        let k = choose|k: int| 0 <= k < b.len() && b[k] == a[0];
        let m = choose|m: int| 0 <= m < a.len() && a[m] == b[0];
        if k > 0 {
            if m > 0 {
                lemma_lex_total(a[0], b[0]);
            } else {
                lemma_lex_irreflexive(a[0]);
            }
        }
        assert(a[0] == b[0]);
        let a1 = a.drop_first();
        let b1 = b.drop_first();
        assert forall|x: Seq<char>| a1.to_set().contains(x) == b1.to_set().contains(x) by {
            if a1.contains(x) {
                let i = choose|i: int| 0 <= i < a1.len() && a1[i] == x;
                assert(a[i + 1] == x);
                assert(b.contains(x));
                let j = choose|j: int| 0 <= j < b.len() && b[j] == x;
                if j == 0 {
                    assert(lex_lt(a[0], a[i + 1]));
                    lemma_lex_irreflexive(x);
                }
                assert(b1[j - 1] == x);
            }
            if b1.contains(x) {
                let i = choose|i: int| 0 <= i < b1.len() && b1[i] == x;
                assert(b[i + 1] == x);
                assert(a.contains(x));
                let j = choose|j: int| 0 <= j < a.len() && a[j] == x;
                if j == 0 {
                    assert(lex_lt(b[0], b[i + 1]));
                    lemma_lex_irreflexive(x);
                }
                assert(a1[j - 1] == x);
            }
        }
        assert(a1.to_set() =~= b1.to_set());
        lemma_ascending_unique(a1, b1);
        assert(a =~= seq![a[0]] + a1);
        assert(b =~= seq![b[0]] + b1);
    }
}

/// Cutting at newlines distributes over a newline between two texts.
proof fn lemma_split_concat(a: Seq<char>, r: Seq<char>)
    ensures
        split_on(a + seq!['\n'] + r, '\n') == split_on(a, '\n') + split_on(r, '\n'),
    decreases a.len(),
{
    let w = a + seq!['\n'] + r;
    crate::text::lemma_find_props(a, '\n');
    let i = find(a, '\n') as int;
    assert forall|j: int| 0 <= j < i implies w[j] != '\n' by {
        assert(w[j] == a[j]);
    }
    if i == a.len() {
        crate::text::lemma_find(w, '\n', i);
        assert(w.take(i) =~= a);
        assert(w.skip(i + 1) =~= r);
        assert(split_on(a, '\n') =~= seq![a]);
    } else {
        assert(w[i] == a[i]);
        crate::text::lemma_find(w, '\n', i);
        let a1 = a.skip(i + 1);
        lemma_split_concat(a1, r);
        assert(w.take(i) =~= a.take(i));
        assert(w.skip(i + 1) =~= a1 + seq!['\n'] + r);
    }
}

/// Whether `x` is one of the pieces of the listing of `e`: the empty text
/// after the last newline, or a piece of some record's line.
pub open spec fn is_listing_piece(e: Seq<(Seq<char>, usize)>, x: Seq<char>) -> bool {
    x == Seq::<char>::empty() || exists|k: int|
        0 <= k < e.len() && #[trigger] split_on(active_line(e[k].0), '\n').contains(x)
}

proof fn lemma_listing_piece_set(e: Seq<(Seq<char>, usize)>, x: Seq<char>)
    ensures
        split_on(listing_text(e), '\n').contains(x) == is_listing_piece(e, x),
    decreases e.len(),
{
    if e.len() == 0 {
        crate::text::lemma_find(Seq::<char>::empty(), '\n', 0);
        assert(split_on(Seq::<char>::empty(), '\n') =~= seq![Seq::<char>::empty()]);
        assert(listing_text(e) == Seq::<char>::empty());
        if split_on(listing_text(e), '\n').contains(x) {
            assert(split_on(listing_text(e), '\n')[0] == Seq::<char>::empty());
        }
        if x == Seq::<char>::empty() {
            assert(split_on(listing_text(e), '\n')[0] == x);
        }
    } else {
        lemma_listing_front(e);
        let rest = e.drop_first();
        let l = active_line(e[0].0);
        lemma_split_concat(l, listing_text(rest));
        lemma_listing_piece_set(rest, x);
        let p1 = split_on(l, '\n');
        let p2 = split_on(listing_text(rest), '\n');
        assert(split_on(listing_text(e), '\n') == p1 + p2);
        if (p1 + p2).contains(x) {
            let q = choose|q: int| 0 <= q < (p1 + p2).len() && (p1 + p2)[q] == x;
            if q < p1.len() {
                assert(p1[q] == x);
                assert(split_on(active_line(e[0].0), '\n').contains(x));
            } else {
                assert(p2[q - p1.len()] == x);
                if x != Seq::<char>::empty() {
                    let k = choose|k: int|
                        0 <= k < rest.len() && #[trigger] split_on(active_line(rest[k].0), '\n').contains(x);
                    assert(rest[k] == e[k + 1]);
                }
            }
        }
        if is_listing_piece(e, x) {
            if x == Seq::<char>::empty() {
                assert(p2.contains(x));
                let q = choose|q: int| 0 <= q < p2.len() && p2[q] == x;
                assert((p1 + p2)[p1.len() + q] == x);
            } else {
                let k = choose|k: int|
                    0 <= k < e.len() && #[trigger] split_on(active_line(e[k].0), '\n').contains(x);
                if k == 0 {
                    let q = choose|q: int| 0 <= q < p1.len() && p1[q] == x;
                    assert((p1 + p2)[q] == x);
                } else {
                    assert(rest[k - 1] == e[k]);
                    assert(split_on(active_line(rest[k - 1].0), '\n').contains(x));
                    assert(p2.contains(x));
                    let q = choose|q: int| 0 <= q < p2.len() && p2[q] == x;
                    assert((p1 + p2)[p1.len() + q] == x);
                }
            }
        }
    }
}

/// Law (order does not matter): two records that hold the same client
/// addresses get the same `list` reply, in whatever order and with
/// whatever sizes the clients were recorded.
pub proof fn lemma_list_reply_order_free(
    e1: Seq<(Seq<char>, usize)>,
    e2: Seq<(Seq<char>, usize)>,
    r1: Seq<char>,
    r2: Seq<char>,
)
    requires
        forall|c: Seq<char>| #[trigger] records_client(e1, c) == records_client(e2, c),
        client_list_reply(e1, r1),
        client_list_reply(e2, r2),
    ensures
        r1 == r2,
{
    let l1 = choose|lines: Seq<Seq<char>>|
        #![trigger join_lines(lines)]
        strictly_ascending(lines) && lines.to_set() == split_on(listing_text(e1), '\n').to_set()
            && r1 == "Client List:"@ + join_lines(lines);
    let l2 = choose|lines: Seq<Seq<char>>|
        #![trigger join_lines(lines)]
        strictly_ascending(lines) && lines.to_set() == split_on(listing_text(e2), '\n').to_set()
            && r2 == "Client List:"@ + join_lines(lines);
    assert forall|x: Seq<char>| l1.to_set().contains(x) == l2.to_set().contains(x) by {
        lemma_listing_piece_set(e1, x);
        lemma_listing_piece_set(e2, x);
        assert(l1.to_set().contains(x) == split_on(listing_text(e1), '\n').contains(x));
        assert(l2.to_set().contains(x) == split_on(listing_text(e2), '\n').contains(x));
        if is_listing_piece(e1, x) && x != Seq::<char>::empty() {
            let k = choose|k: int|
                0 <= k < e1.len() && #[trigger] split_on(active_line(e1[k].0), '\n').contains(x);
            assert(records_client(e1, e1[k].0));
            assert(records_client(e2, e1[k].0));
            let k2 = choose|k2: int| 0 <= k2 < e2.len() && e2[k2].0 == e1[k].0;
            assert(split_on(active_line(e2[k2].0), '\n').contains(x));
        }
        if is_listing_piece(e2, x) && x != Seq::<char>::empty() {
            let k = choose|k: int|
                0 <= k < e2.len() && #[trigger] split_on(active_line(e2[k].0), '\n').contains(x);
            assert(records_client(e2, e2[k].0));
            assert(records_client(e1, e2[k].0));
            let k1 = choose|k1: int| 0 <= k1 < e1.len() && e1[k1].0 == e2[k].0;
            assert(split_on(active_line(e1[k1].0), '\n').contains(x));
        }
    }
    assert(l1.to_set() =~= l2.to_set());
    lemma_ascending_unique(l1, l2);
}

/// Whether no text of `s` holds a newline.
pub open spec fn single_line_texts(s: Seq<Seq<char>>) -> bool {
    forall|i: int, j: int| 0 <= i < s.len() && 0 <= j < s[i].len() ==> s[i][j] != '\n'
}

proof fn lemma_split_single_line(a: Seq<char>)
    requires
        forall|j: int| 0 <= j < a.len() ==> a[j] != '\n',
    ensures
        split_on(a, '\n') == seq![a],
{
    crate::text::lemma_find(a, '\n', a.len() as int);
    assert(a.take(a.len() as int) =~= a);
}

proof fn lemma_split_joined(p: Seq<char>, lines: Seq<Seq<char>>)
    requires
        lines.len() > 0,
        forall|j: int| 0 <= j < p.len() ==> p[j] != '\n',
        single_line_texts(lines),
    ensures
        split_on(p + join_lines(lines), '\n') == seq![p + lines[0]] + lines.drop_first(),
    decreases lines.len(),
{
    if lines.len() == 1 {
        let a = p + lines[0];
        assert forall|j: int| 0 <= j < a.len() implies a[j] != '\n' by {
            if j >= p.len() {
                assert(a[j] == lines[0][j - p.len()]);
            }
        }
        lemma_split_single_line(a);
        assert(lines.drop_first() =~= Seq::<Seq<char>>::empty());
        assert(seq![a] + lines.drop_first() =~= seq![a]);
    } else {
        let dl = lines.drop_last();
        assert forall|i: int, j: int| 0 <= i < dl.len() && 0 <= j < dl[i].len() implies dl[i][j]
            != '\n' by {
            assert(dl[i] == lines[i]);
        }
        lemma_split_joined(p, dl);
        let last = lines.last();
        assert forall|j: int| 0 <= j < last.len() implies last[j] != '\n' by {
            assert(last == lines[lines.len() - 1]);
        }
        lemma_split_single_line(last);
        lemma_split_concat(p + join_lines(dl), last);
        assert(p + join_lines(lines) =~= (p + join_lines(dl)) + seq!['\n'] + last);
        assert(dl[0] == lines[0]);
        assert(seq![p + lines[0]] + dl.drop_first() + seq![last] =~= seq![p + lines[0]]
            + lines.drop_first());
    }
}

/// The lines of a `list` reply for single-line clients: the heading, then
/// one line per recorded client; with the ascending lines beginning with
/// the empty one.
proof fn lemma_reply_lines(e: Seq<(Seq<char>, usize)>, lines: Seq<Seq<char>>)
    requires
        single_line_clients(e),
        strictly_ascending(lines),
        lines.to_set() == split_on(listing_text(e), '\n').to_set(),
    ensures
        lines.len() > 0,
        lines[0] == Seq::<char>::empty(),
        single_line_texts(lines),
        lines.no_duplicates(),
        lines.len() == lines.to_set().len(),
        split_on("Client List:"@ + join_lines(lines), '\n') == seq!["Client List:"@]
            + lines.drop_first(),
{
    reveal_strlit("Client List:");
    reveal_strlit("Client Active: ");
    lemma_list_names_recorded_clients(e, lines);
    let k0 = choose|k: int| 0 <= k < lines.len() && lines[k] == Seq::<char>::empty();
    if k0 != 0 {
        assert(lex_lt(lines[0], lines[k0]));
    }
    assert forall|i: int, j: int| 0 <= i < lines.len() && 0 <= j < lines[i].len() implies lines[i][j]
        != '\n' by {
        assert(lines.contains(lines[i]));
        if lines[i] != Seq::<char>::empty() {
            let q = choose|q: int| 0 <= q < e.len() && lines[i] == active_line(e[q].0);
            if j >= 15 {
                assert(lines[i][j] == e[q].0[j - 15]);
            }
        }
    }
    assert forall|i: int, j: int| 0 <= i < lines.len() && 0 <= j < lines.len() && i != j implies lines[i]
        != lines[j] by {
        if i < j {
            if lines[i] == lines[j] {
                lemma_lex_irreflexive(lines[i]);
            }
        } else {
            if lines[i] == lines[j] {
                lemma_lex_irreflexive(lines[i]);
            }
        }
    }
    lines.unique_seq_to_set();
    lemma_split_joined("Client List:"@, lines);
    assert("Client List:"@ + lines[0] =~= "Client List:"@);
}

/// Law (one line per client): recording a client that is already listed
/// leaves the `list` reply as it was; recording a new one (all addresses
/// single-line) adds exactly one line to the reply, the one that lists it.
pub proof fn lemma_new_client_adds_one_line(
    e: Seq<(Seq<char>, usize)>,
    c: Seq<char>,
    n: usize,
    r1: Seq<char>,
    r2: Seq<char>,
)
    requires
        client_list_reply(e, r1),
        client_list_reply(e.push((c, n)), r2),
    ensures
        records_client(e, c) ==> r2 == r1,
        !records_client(e, c) && single_line_clients(e) && (forall|j: int|
            0 <= j < c.len() ==> c[j] != '\n') ==> {
            &&& split_on(r2, '\n').len() == split_on(r1, '\n').len() + 1
            &&& split_on(r2, '\n').contains(active_line(c))
            &&& !split_on(r1, '\n').contains(active_line(c))
        },
{
    let e2 = e.push((c, n));
    assert forall|d: Seq<char>| #[trigger] records_client(e2, d) == (records_client(e, d) || d == c) by {
        if records_client(e, d) {
            let i = choose|i: int| 0 <= i < e.len() && e[i].0 == d;
            assert(e2[i] == e[i]);
        }
        if records_client(e2, d) {
            let i = choose|i: int| 0 <= i < e2.len() && e2[i].0 == d;
            if i < e.len() {
                assert(e[i] == e2[i]);
            }
        }
        if d == c {
            assert(e2[e.len() as int].0 == c);
        }
    }
    if records_client(e, c) {
        lemma_list_reply_order_free(e2, e, r2, r1);
    }
    if !records_client(e, c) && single_line_clients(e) && (forall|j: int|
        0 <= j < c.len() ==> c[j] != '\n') {
        reveal_strlit("Client List:");
        reveal_strlit("Client Active: ");
        assert forall|i: int, j: int| 0 <= i < e2.len() && 0 <= j < e2[i].0.len() implies e2[i].0[j]
            != '\n' by {
            if i < e.len() {
                assert(e2[i] == e[i]);
            }
        }
        let l1 = choose|lines: Seq<Seq<char>>|
            #![trigger join_lines(lines)]
            strictly_ascending(lines) && lines.to_set() == split_on(listing_text(e), '\n').to_set()
                && r1 == "Client List:"@ + join_lines(lines);
        let l2 = choose|lines: Seq<Seq<char>>|
            #![trigger join_lines(lines)]
            strictly_ascending(lines) && lines.to_set() == split_on(listing_text(e2), '\n').to_set()
                && r2 == "Client List:"@ + join_lines(lines);
        lemma_reply_lines(e, l1);
        lemma_reply_lines(e2, l2);
        lemma_list_names_recorded_clients(e, l1);
        lemma_list_names_recorded_clients(e2, l2);
        let x = active_line(c);
        assert(!l1.contains(x));
        assert(l2.contains(x));
        assert forall|y: Seq<char>| l2.to_set().contains(y) == l1.to_set().insert(x).contains(y) by {
            if l2.contains(y) && y != x && y != Seq::<char>::empty() {
                let q = choose|q: int| 0 <= q < e2.len() && y == active_line(e2[q].0);
                assert(records_client(e2, e2[q].0));
                if e2[q].0 == c {
                    assert(y == x);
                }
                assert(records_client(e, e2[q].0));
                assert(l1.contains(active_line(e2[q].0)));
            }
            if l1.contains(y) && y != Seq::<char>::empty() {
                let q = choose|q: int| 0 <= q < e.len() && y == active_line(e[q].0);
                assert(records_client(e, e[q].0));
                assert(records_client(e2, e[q].0));
                assert(l2.contains(active_line(e[q].0)));
            }
        }
        assert(l2.to_set() =~= l1.to_set().insert(x));
        vstd::seq_lib::seq_to_set_is_finite(l1);
        vstd::set::axiom_set_insert_len(l1.to_set(), x);
        assert(!l1.to_set().contains(x));
        let k = choose|k: int| 0 <= k < l2.len() && l2[k] == x;
        assert(x.len() > 0);
        assert(k != 0);
        assert(l2.drop_first()[k - 1] == x);
        assert(split_on(r2, '\n')[k] == x);
        if split_on(r1, '\n').contains(x) {
            let q = choose|q: int| 0 <= q < split_on(r1, '\n').len() && split_on(r1, '\n')[q] == x;
            if q == 0 {
                assert("Client List:"@[7] != x[7]);
            } else {
                assert(l1[q] == x);
            }
        }
    }
}

} // verus!
