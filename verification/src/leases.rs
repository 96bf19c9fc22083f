//! Lease bookkeeping of a client's image website. The owner leases an image
//! for a chosen number of views; each visit of `/temp/<image>` uses one,
//! and once none remain (or when the image was never leased) the visit
//! shows a blank picture.

use vstd::prelude::*;
use crate::text::{chars_of, contains_chars, contains_text, begins_with, starts_with, remove_all, remove_text, push_str, string_from_chars};
use crate::pages::string_views;

verus! {

/// The number of views a lease grants when the owner names none.
pub const DEFAULT_LEASE_VIEWS: u32 = 5;

/// The views of `route` left before a visit (none when it was never leased).
pub open spec fn remaining_before(m: Map<Seq<char>, u32>, route: Seq<char>) -> u32 {
    if m.contains_key(route) { m[route] } else { 0 }
}

/// Whether a visit of `route` under `m` shows the image: a view is left.
pub open spec fn shows_image(m: Map<Seq<char>, u32>, route: Seq<char>) -> bool {
    remaining_before(m, route) > 0
}

/// The views of `route` left after a visit.
pub open spec fn remaining_after(m: Map<Seq<char>, u32>, route: Seq<char>) -> u32 {
    if shows_image(m, route) { (remaining_before(m, route) - 1) as u32 } else { 0 }
}

/// The remaining views after a visit of `route`: a shown view uses one up;
/// a blank visit changes nothing.
pub open spec fn after_visit(m: Map<Seq<char>, u32>, route: Seq<char>) -> Map<Seq<char>, u32> {
    if shows_image(m, route) {
        m.insert(route, remaining_after(m, route))
    } else {
        m
    }
}

/// The remaining views after `k` visits of `route`.
pub open spec fn after_visits(m: Map<Seq<char>, u32>, route: Seq<char>, k: nat) -> Map<
    Seq<char>,
    u32,
>
    decreases k,
{
    if k == 0 {
        m
    } else {
        after_visit(after_visits(m, route, (k - 1) as nat), route)
    }
}

/// The route at which a leased image is viewed.
pub open spec fn lease_route(image: Seq<char>) -> Seq<char> {
    "/temp/"@ + image
}

/// The entries hold each route once, and agree with the map `m`.
pub open spec fn entries_match(entries: Seq<(String, u32)>, m: Map<Seq<char>, u32>) -> bool {
    &&& forall|i: int, j: int|
        0 <= i < j < entries.len() ==> #[trigger] entries[i].0@ != #[trigger] entries[j].0@
    &&& forall|i: int|
        0 <= i < entries.len() ==> #[trigger] m.contains_key(entries[i].0@) && m[entries[i].0@]
            == entries[i].1
    &&& forall|k: Seq<char>|
        #[trigger] m.contains_key(k) ==> exists|i: int|
            0 <= i < entries.len() && #[trigger] entries[i].0@ == k
}

/// The views left on each leased image, keyed by route.
pub struct ViewCounts {
    entries: Vec<(String, u32)>,
    remaining: Ghost<Map<Seq<char>, u32>>,
}

impl View for ViewCounts {
    type V = Map<Seq<char>, u32>;

    closed spec fn view(&self) -> Map<Seq<char>, u32> {
        self.remaining@
    }
}

/// What a visit of a lease route shows.
pub struct Visit {
    /// Whether the leased image itself is shown (else the blank picture).
    pub shown: bool,
    /// The file shown.
    pub file_name: String,
    /// Where the file is served from.
    pub image_path: String,
    /// The views left after the visit.
    pub remaining: u32,
}

fn position(entries: &Vec<(String, u32)>, key: &String, m: Ghost<Map<Seq<char>, u32>>) -> (r: Option<
    usize,
>)
    requires
        entries_match(entries@, m@),
    ensures
        match r {
            Some(i) => i < entries@.len() && entries@[i as int].0@ == key@,
            None => !m@.contains_key(key@),
        },
{
    let mut i: usize = 0;
    while i < entries.len()
        invariant
            i <= entries@.len(),
            forall|j: int| 0 <= j < i ==> entries@[j].0@ != key@,
        decreases entries@.len() - i,
    {
        if entries[i].0 == *key {
            return Some(i);
        }
        i = i + 1;
    }
    None
}

fn set_entry(entries: &mut Vec<(String, u32)>, m: Ghost<Map<Seq<char>, u32>>, key: String, value: u32) -> (r: Ghost<
    Map<Seq<char>, u32>,
>)
    requires
        entries_match(old(entries)@, m@),
    ensures
        r@ == m@.insert(key@, value),
        entries_match(final(entries)@, r@),
{
    let ghost k = key@;
    let ghost old_entries = entries@;
    let ghost nm = m@.insert(k, value);
    match position(entries, &key, m) {
        Some(i) => {
            entries.set(i, (key, value));
            assert forall|j: int| 0 <= j < entries@.len() implies #[trigger] nm.contains_key(
                entries@[j].0@,
            ) && nm[entries@[j].0@] == entries@[j].1 by {
                if j != i {
                    assert(entries@[j] == old_entries[j]);
                    assert(m@.contains_key(old_entries[j].0@));
                    assert(old_entries[j].0@ != k) by {
                        if j < i {
                            assert(old_entries[j].0@ != old_entries[i as int].0@);
                        } else {
                            assert(old_entries[i as int].0@ != old_entries[j].0@);
                        }
                    }
                } else {
                    assert(entries@[j].0@ == k);
                }
            }
            assert forall|q: Seq<char>| #[trigger] nm.contains_key(q) implies exists|j: int|
                0 <= j < entries@.len() && #[trigger] entries@[j].0@ == q by {
                if q != k {
                    let j = choose|j: int| 0 <= j < old_entries.len() && #[trigger] old_entries[j].0@ == q;
                    if j == i {
                        assert(old_entries[i as int].0@ == k);
                    }
                    assert(entries@[j].0@ == q);
                } else {
                    assert(entries@[i as int].0@ == q);
                }
            }
        },
        None => {
            entries.push((key, value));
            let ghost n: int = entries@.len() - 1;
            assert(entries@[n].0@ == k);
            assert forall|q: Seq<char>| #[trigger] nm.contains_key(q) implies exists|j: int|
                0 <= j < entries@.len() && #[trigger] entries@[j].0@ == q by {
                if q != k {
                    let j = choose|j: int| 0 <= j < old_entries.len() && #[trigger] old_entries[j].0@ == q;
                    assert(entries@[j].0@ == q);
                }
            }
            assert forall|a: int, b: int|
                0 <= a < b < entries@.len() implies #[trigger] entries@[a].0@ != #[trigger] entries@[b].0@ by {
                if b == n {
                    assert(m@.contains_key(old_entries[a].0@));
                }
            }
        },
    }
    Ghost(nm)
}

impl ViewCounts {
    #[verifier::type_invariant]
    spec fn well_formed(self) -> bool {
        entries_match(self.entries@, self.remaining@)
    }

    /// No leases yet.
    pub fn new() -> (r: Self)
        ensures
            r@ == Map::<Seq<char>, u32>::empty(),
    {
        ViewCounts { entries: Vec::new(), remaining: Ghost(Map::empty()) }
    }

    /// The views left on `key`, if it was ever leased.
    pub fn get(&self, key: &String) -> (r: Option<u32>)
        ensures
            r == (if self@.contains_key(key@) {
                Some(self@[key@])
            } else {
                None::<u32>
            }),
    {
        proof {
            use_type_invariant(self);
        }
        match position(&self.entries, key, self.remaining) {
            Some(i) => Some(self.entries[i].1),
            None => None,
        }
    }

    /// Sets the views left on `key`.
    pub fn set(&mut self, key: String, value: u32)
        ensures
            final(self)@ == old(self)@.insert(key@, value),
    {
        proof {
            use_type_invariant(&*self);
        }
        let mut taken = ViewCounts::new();
        std::mem::swap(&mut taken, self);
        proof {
            use_type_invariant(&taken);
        }
        let ViewCounts { mut entries, remaining } = taken;
        let remaining = set_entry(&mut entries, remaining, key, value);
        *self = ViewCounts { entries, remaining };
    }

    /// Grants a lease of `views` views on `image`, replacing any earlier one.
    pub fn lease(&mut self, image: &str, views: u32)
        ensures
            final(self)@ == old(self)@.insert(lease_route(image@), views),
    {
        let mut key: Vec<char> = Vec::new();
        push_str(&mut key, "/temp/");
        push_str(&mut key, image);
        let key = string_from_chars(key.as_slice());
        self.set(key, views);
    }

    /// A visit of `route`: while views are left the image is shown and one
    /// view is used up; otherwise the blank picture is shown.
    pub fn visit(&mut self, route: &String) -> (v: Visit)
        ensures
            final(self)@ == after_visit(old(self)@, route@),
            v.remaining == remaining_after(old(self)@, route@),
            v.shown == shows_image(old(self)@, route@),
            v.file_name@ == (if v.shown {
                remove_all(route@, "/temp/"@)
            } else {
                "blank.jpg"@
            }),
            v.image_path@ == "/static/"@ + v.file_name@,
    {
        let before = match self.get(route) {
            Some(c) => c,
            None => 0,
        };
        let shown = before > 0;
        let remaining = if shown { before - 1 } else { 0 };
        if shown {
            self.set(route.clone(), remaining);
        }
        let file: Vec<char> = if shown {
            let r = chars_of(route.as_str());
            remove_text(&r, "/temp/")
        } else {
            chars_of("blank.jpg")
        };
        let mut path: Vec<char> = Vec::new();
        push_str(&mut path, "/static/");
        let ghost before_path = path@;
        let mut i: usize = 0;
        while i < file.len()
            invariant
                i <= file@.len(),
                path@ == before_path + file@.take(i as int),
            decreases file@.len() - i,
        {
            path.push(file[i]);
            assert(file@.take(i + 1) =~= file@.take(i as int).push(file@[i as int]));
            i = i + 1;
        }
        assert(file@.take(file@.len() as int) =~= file@);
        Visit {
            shown,
            file_name: string_from_chars(file.as_slice()),
            image_path: string_from_chars(path.as_slice()),
            remaining,
        }
    }
}

proof fn lemma_leased_remaining(m: Map<Seq<char>, u32>, route: Seq<char>, n: u32, k: nat)
    requires
        m.contains_key(route),
        m[route] == n,
    ensures
        remaining_before(after_visits(m, route, k), route) == (if k < n { n - k } else { 0 }),
    decreases k,
{
    if k > 0 {
        lemma_leased_remaining(m, route, n, (k - 1) as nat);
    }
}

proof fn lemma_unleased_remaining(m: Map<Seq<char>, u32>, route: Seq<char>, k: nat)
    requires
        !m.contains_key(route),
    ensures
        after_visits(m, route, k) == m,
    decreases k,
{
    if k > 0 {
        lemma_unleased_remaining(m, route, (k - 1) as nat);
    }
}

/// Law (lease): after a lease of `n` views on `image`, the next `n` visits
/// of its route show the image and every later visit shows the blank
/// picture; after the `k`-th visit, `n - k` views are left (none after the
/// `n`-th).
pub proof fn lemma_lease_grants_views(m: Map<Seq<char>, u32>, image: Seq<char>, n: u32, k: nat)
    ensures
        shows_image(after_visits(m.insert(lease_route(image), n), lease_route(image), k), lease_route(image))
            == (k < n),
        remaining_after(after_visits(m.insert(lease_route(image), n), lease_route(image), k), lease_route(image))
            == (if k + 1 < n { n - (k + 1) } else { 0 }),
{
    lemma_leased_remaining(m.insert(lease_route(image), n), lease_route(image), n, k);
}

/// Law (no lease, no view): a route that was never leased shows the blank
/// picture on every visit, and visits leave the leases as they were.
pub proof fn lemma_unleased_never_shown(m: Map<Seq<char>, u32>, route: Seq<char>, k: nat)
    requires
        !m.contains_key(route),
    ensures
        !shows_image(after_visits(m, route, k), route),
        after_visits(m, route, k) == m,
{
    lemma_unleased_remaining(m, route, k);
}

/// Law (separation): visiting one route leaves every other lease as it was.
pub proof fn lemma_visit_touches_one_route(m: Map<Seq<char>, u32>, route: Seq<char>, other: Seq<char>)
    requires
        other != route,
    ensures
        after_visit(m, route).contains_key(other) == m.contains_key(other),
        m.contains_key(other) ==> after_visit(m, route)[other] == m[other],
{
}

/// Where a request for `route` is answered from.
pub enum RouteKind {
    /// A file under the current directory, at `path`.
    StaticFile { path: String },
    /// The page of a leased image.
    LeasedImage,
    /// The gallery of all shared images.
    Gallery,
}

/// Sorts a request: `/static/...` is served from the file `.<route>`,
/// `/temp/...` is a lease page, anything else the gallery.
pub fn classify_route(route: &str) -> (r: RouteKind)
    ensures
        starts_with(route@, "/static/"@) ==> (r matches RouteKind::StaticFile { path } && path@
            == "."@ + route@),
        !starts_with(route@, "/static/"@) && starts_with(route@, "/temp/"@) ==> r is LeasedImage,
        !starts_with(route@, "/static/"@) && !starts_with(route@, "/temp/"@) ==> r is Gallery,
{
    let v = chars_of(route);
    if begins_with(&v, "/static/") {
        let mut p: Vec<char> = Vec::new();
        push_str(&mut p, ".");
        push_str(&mut p, route);
        RouteKind::StaticFile { path: string_from_chars(p.as_slice()) }
    } else if begins_with(&v, "/temp/") {
        RouteKind::LeasedImage
    } else {
        RouteKind::Gallery
    }
}

/// Whether a file name is shown in the gallery: it mentions `.png` or `.jpg`.
pub open spec fn is_listed_name(name: Seq<char>) -> bool {
    contains_text(name, ".png"@) || contains_text(name, ".jpg"@)
}

/// Decides `is_listed_name`.
pub fn is_listed_image(name: &str) -> (r: bool)
    ensures
        r == is_listed_name(name@),
{
    let v = chars_of(name);
    contains_chars(&v, ".png") || contains_chars(&v, ".jpg")
}

/// The names that the gallery shows, in their order.
pub open spec fn listed_names(names: Seq<Seq<char>>) -> Seq<Seq<char>>
    decreases names.len(),
{
    if names.len() == 0 {
        Seq::empty()
    } else if is_listed_name(names.last()) {
        listed_names(names.drop_last()).push(names.last())
    } else {
        listed_names(names.drop_last())
    }
}

/// Keeps the names that the gallery shows.
pub fn listed_images(names: &Vec<String>) -> (r: Vec<String>)
    ensures
        string_views(r@) == listed_names(string_views(names@)),
{
    let ghost all = string_views(names@);
    let mut out: Vec<String> = Vec::new();
    let mut i: usize = 0;
    assert(all.take(0) =~= Seq::<Seq<char>>::empty());
    assert(string_views(out@) =~= Seq::<Seq<char>>::empty());
    while i < names.len()
        invariant
            i <= names@.len(),
            all == string_views(names@),
            string_views(out@) == listed_names(all.take(i as int)),
        decreases names@.len() - i,
    {
        let ghost before = out@;
        let ghost t = all.take(i + 1);
        assert(t.drop_last() =~= all.take(i as int));
        assert(t.last() == names@[i as int]@);
        if is_listed_image(names[i].as_str()) {
            out.push(names[i].clone());
            assert(string_views(out@) =~= string_views(before).push(names@[i as int]@));
        }
        i = i + 1;
    }
    assert(all.take(names@.len() as int) =~= all);
    out
}

/// Law (the gallery filters): the names listed from two runs of names,
/// one after the other, are those listed from each, in the same order; and
/// from one name, that name exactly when it is an image name.
pub proof fn lemma_listed_names_filter(a: Seq<Seq<char>>, b: Seq<Seq<char>>, x: Seq<char>)
    ensures
        listed_names(a + b) == listed_names(a) + listed_names(b),
        listed_names(seq![x]) == (if is_listed_name(x) {
            seq![x]
        } else {
            Seq::<Seq<char>>::empty()
        }),
    decreases b.len(),
{
    assert(seq![x].drop_last() =~= Seq::<Seq<char>>::empty());
    assert(seq![x].last() == x);
    assert(listed_names(Seq::<Seq<char>>::empty()) == Seq::<Seq<char>>::empty());
    assert(Seq::<Seq<char>>::empty().push(x) =~= seq![x]);
    if b.len() == 0 {
        assert(a + b =~= a);
        assert(listed_names(a) + listed_names(b) =~= listed_names(a));
    } else {
        lemma_listed_names_filter(a, b.drop_last(), x);
        assert((a + b).drop_last() =~= a + b.drop_last());
        assert((a + b).last() == b.last());
        if is_listed_name(b.last()) {
            assert(listed_names(a) + listed_names(b) =~= (listed_names(a) + listed_names(
                b.drop_last(),
            )).push(b.last()));
        }
    }
}

/// Law (image names): a name with `.png` or `.jpg` anywhere in it is an
/// image name; a name without a `.` is not.
pub proof fn lemma_listed_name_marks(p: Seq<char>, q: Seq<char>, other: Seq<char>)
    ensures
        is_listed_name(p + ".png"@ + q),
        is_listed_name(p + ".jpg"@ + q),
        (forall|j: int| 0 <= j < other.len() ==> other[j] != '.') ==> !is_listed_name(other),
{
    reveal_strlit(".png");
    reveal_strlit(".jpg");
    let n = p.len() as int;
    assert((p + ".png"@ + q).subrange(n, n + 4) =~= ".png"@);
    assert((p + ".jpg"@ + q).subrange(n, n + 4) =~= ".jpg"@);
    if forall|j: int| 0 <= j < other.len() ==> other[j] != '.' {
        assert forall|i: int| 0 <= i && i + 4 <= other.len() implies #[trigger] other.subrange(i, i + 4)
            != ".png"@ && other.subrange(i, i + 4) != ".jpg"@ by {
            assert(other.subrange(i, i + 4)[0] == other[i]);
            assert(".png"@[0] == '.');
            assert(".jpg"@[0] == '.');
        }
    }
}

proof fn lemma_remove_absent(s: Seq<char>, p: Seq<char>)
    requires
        p.len() > 0,
        !contains_text(s, p),
    ensures
        remove_all(s, p) == s,
    decreases s.len(),
{
    if s.len() > 0 {
        assert(!starts_with(s, p)) by {
            if starts_with(s, p) {
                assert(s.subrange(0, 0 + p.len() as int) =~= s.take(p.len() as int));
            }
        }
        let t = s.drop_first();
        if contains_text(t, p) {
            let i = choose|i: int| 0 <= i && i + p.len() <= t.len() && #[trigger] t.subrange(i, i + p.len()) == p;
            assert(s.subrange(i + 1, i + 1 + p.len()) =~= t.subrange(i, i + p.len()));
        }
        lemma_remove_absent(t, p);
        assert(seq![s[0]] + t =~= s);
    }
}

/// Law (a lease opens its route): after a lease of `n > 0` views on
/// `image`, a visit of `/temp/<image>` shows the image and leaves `n - 1`
/// views; the file shown is `image` itself when its name does not hold
/// `/temp/`.
pub proof fn lemma_lease_opens_route(m: Map<Seq<char>, u32>, image: Seq<char>, n: u32)
    requires
        n > 0,
    ensures
        shows_image(m.insert(lease_route(image), n), "/temp/"@ + image),
        remaining_after(m.insert(lease_route(image), n), "/temp/"@ + image) == n - 1,
        after_visit(m.insert(lease_route(image), n), "/temp/"@ + image) == m.insert(
            "/temp/"@ + image,
            (n - 1) as u32,
        ),
        !contains_text(image, "/temp/"@) ==> remove_all("/temp/"@ + image, "/temp/"@) == image,
{
    reveal_strlit("/temp/");
    let r = "/temp/"@ + image;
    assert(lease_route(image) == r);
    assert(m.insert(r, n).insert(r, (n - 1) as u32) =~= m.insert(r, (n - 1) as u32));
    let t = "/temp/"@;
    assert(starts_with(r, t)) by {
        assert(r.take(t.len() as int) =~= t);
    }
    assert(r.skip(t.len() as int) =~= image);
    if !contains_text(image, t) {
        lemma_remove_absent(image, t);
    }
}

} // verus!
