//! The order in which the authoring tool listed a folder: the order that
//! members must take again when an unpacked tree is packed.

use vstd::prelude::*;

use core::cmp::Ordering;

verus! {

/// What `str::to_lowercase` makes of a string.
pub uninterp spec fn lower_of(s: Seq<char>) -> Seq<char>;

/// What `alphanumeric_sort::compare_str` says of two strings.
pub uninterp spec fn natural_order(a: Seq<char>, b: Seq<char>) -> Ordering;

/// Relies on `str::to_lowercase` for the lowercase form of a name, handed
/// back as its characters.
#[verifier::external_body]
fn lowercase_chars(s: &str) -> (r: Vec<char>)
    ensures
        r@ == lower_of(s@),
{
    s.to_lowercase().chars().collect()
}

/// Relies on `alphanumeric_sort::compare_str` for the natural order of two
/// names, digit runs compared by their value.
#[verifier::external_body]
fn natural_cmp(a: &Vec<char>, b: &Vec<char>) -> (r: Ordering)
    ensures
        r == natural_order(a@, b@),
{
    let a: String = a.iter().collect();
    let b: String = b.iter().collect();
    alphanumeric_sort::compare_str(&a, &b)
}

/// A file or a folder among its siblings.
#[derive(Debug, Clone)]
pub struct NameEntry {
    /// Its name, without the path of its parent.
    pub name: String,
    pub is_dir: bool,
}

/// `k` is the position of the first `c` in `s`, or the length of `s` if there is none.
pub open spec fn is_first(s: Seq<char>, c: char, k: int) -> bool {
    &&& 0 <= k <= s.len()
    &&& k < s.len() ==> s[k] == c
    &&& forall|j: int| 0 <= j < k ==> #[trigger] s[j] != c
}

/// What comes before the first `c` in `s`; all of `s` if there is none.
pub open spec fn cut_spec(s: Seq<char>, c: char) -> Seq<char> {
    s.take(choose|k: int| is_first(s, c, k))
}

/// The key by which siblings are ordered: the lowercase name; for a file, cut
/// at its first `.` and then at its first space.
pub open spec fn sort_key_spec(name: Seq<char>, is_dir: bool) -> Seq<char> {
    if is_dir {
        lower_of(name)
    } else {
        cut_spec(cut_spec(lower_of(name), '.'), ' ')
    }
}

/// The lexicographic order of two character sequences, by code point.
pub open spec fn lex_cmp(a: Seq<char>, b: Seq<char>) -> Ordering
    decreases a.len(),
{
    if a.len() == 0 {
        if b.len() == 0 {
            Ordering::Equal
        } else {
            Ordering::Less
        }
    } else if b.len() == 0 {
        Ordering::Greater
    } else if a[0] < b[0] {
        Ordering::Less
    } else if a[0] > b[0] {
        Ordering::Greater
    } else {
        lex_cmp(a.drop_first(), b.drop_first())
    }
}

/// Sibling order by key and kind alone: keys first, then a file before a
/// folder of the same key. `Equal` where both agree.
pub open spec fn key_order(a: (Seq<char>, bool), b: (Seq<char>, bool)) -> Ordering {
    let c = lex_cmp(sort_key_spec(a.0, a.1), sort_key_spec(b.0, b.1));
    if c != Ordering::Equal {
        c
    } else if a.1 && !b.1 {
        Ordering::Greater
    } else if !a.1 && b.1 {
        Ordering::Less
    } else {
        Ordering::Equal
    }
}

/// Sibling order: `key_order`, and where that ties, the natural order of the
/// lowercase names.
pub open spec fn dir_order(a: (Seq<char>, bool), b: (Seq<char>, bool)) -> Ordering {
    let c = key_order(a, b);
    if c != Ordering::Equal {
        c
    } else {
        natural_order(lower_of(a.0), lower_of(b.0))
    }
}

/// The opposite order.
pub open spec fn flip(o: Ordering) -> Ordering {
    match o {
        Ordering::Less => Ordering::Greater,
        Ordering::Equal => Ordering::Equal,
        Ordering::Greater => Ordering::Less,
    }
}

/// What comes before the first `c` in `s`.
fn cut_at(s: &Vec<char>, c: char) -> (r: Vec<char>)
    ensures
        r@ == cut_spec(s@, c),
{
    let mut k: usize = 0;
    while k < s.len() && s[k] != c
        invariant
            k <= s@.len(),
            forall|j: int| 0 <= j < k ==> #[trigger] s@[j] != c,
        decreases s@.len() - k,
    {
        k = k + 1;
    }
    let ghost w = choose|w: int| is_first(s@, c, w);
    assert(is_first(s@, c, k as int));
    assert(w == k) by {
        if w < k {
            assert(s@[w] != c);
        }
        if k < w {
            assert(s@[k as int] != c);
        }
    }
    let mut r: Vec<char> = Vec::new();
    let mut j: usize = 0;
    while j < k
        invariant
            j <= k <= s@.len(),
            r@ == s@.take(j as int),
        decreases k - j,
    {
        r.push(s[j]);
        j = j + 1;
        assert(r@ =~= s@.take(j as int));
    }
    r
}

/// The key by which `entry` is ordered among its siblings.
pub fn sort_key(entry: &NameEntry) -> (r: Vec<char>)
    ensures
        r@ == sort_key_spec(entry.name@, entry.is_dir),
{
    let lower = lowercase_chars(entry.name.as_str());
    if entry.is_dir {
        lower
    } else {
        let stem = cut_at(&lower, '.');
        cut_at(&stem, ' ')
    }
}

/// Comparing from position `k` on, where everything before agrees.
proof fn lemma_lex_step(a: Seq<char>, b: Seq<char>, k: int)
    requires
        0 <= k < a.len(),
        k < b.len(),
        a[k] == b[k],
    ensures
        lex_cmp(a.subrange(k, a.len() as int), b.subrange(k, b.len() as int)) == lex_cmp(
            a.subrange(k + 1, a.len() as int),
            b.subrange(k + 1, b.len() as int),
        ),
{
    assert(a.subrange(k, a.len() as int).drop_first() =~= a.subrange(k + 1, a.len() as int));
    assert(b.subrange(k, b.len() as int).drop_first() =~= b.subrange(k + 1, b.len() as int));
}

/// The lexicographic order of two character sequences.
pub fn compare_chars(a: &Vec<char>, b: &Vec<char>) -> (r: Ordering)
    ensures
        r == lex_cmp(a@, b@),
{
    let mut k: usize = 0;
    assert(a@.subrange(0, a@.len() as int) =~= a@);
    assert(b@.subrange(0, b@.len() as int) =~= b@);
    while k < a.len() && k < b.len()
        invariant
            k <= a@.len(),
            k <= b@.len(),
            lex_cmp(a@, b@) == lex_cmp(
                a@.subrange(k as int, a@.len() as int),
                b@.subrange(k as int, b@.len() as int),
            ),
        decreases a@.len() - k,
    {
        let x = a[k];
        let y = b[k];
        if x < y {
            return Ordering::Less;
        }
        if x > y {
            return Ordering::Greater;
        }
        proof {
            lemma_lex_step(a@, b@, k as int);
        }
        k = k + 1;
    }
    if k < a.len() {
        Ordering::Greater
    } else if k < b.len() {
        Ordering::Less
    } else {
        Ordering::Equal
    }
}

/// Orders two siblings as the authoring tool listed them: by key; on equal
/// keys a file before a folder; between two files or two folders of equal
/// key, by the natural order of their lowercase names.
pub fn windows_sort(a: &NameEntry, b: &NameEntry) -> (r: Ordering)
    ensures
        r == dir_order((a.name@, a.is_dir), (b.name@, b.is_dir)),
{
    let ka = sort_key(a);
    let kb = sort_key(b);
    match compare_chars(&ka, &kb) {
        Ordering::Equal => {},
        check => {
            return check;
        },
    }
    if a.is_dir && !b.is_dir {
        Ordering::Greater
    } else if !a.is_dir && b.is_dir {
        Ordering::Less
    } else {
        let la = lowercase_chars(a.name.as_str());
        let lb = lowercase_chars(b.name.as_str());
        natural_cmp(&la, &lb)
    }
}


pub proof fn lemma_lex_refl(a: Seq<char>)
    ensures
        lex_cmp(a, a) == Ordering::Equal,
    decreases a.len(),
{
    if a.len() > 0 {
        lemma_lex_refl(a.drop_first());
    }
}

pub proof fn lemma_lex_flip(a: Seq<char>, b: Seq<char>)
    ensures
        lex_cmp(b, a) == flip(lex_cmp(a, b)),
    decreases a.len(),
{
    if a.len() > 0 && b.len() > 0 {
        lemma_lex_flip(a.drop_first(), b.drop_first());
    }
}

pub proof fn lemma_lex_equal(a: Seq<char>, b: Seq<char>)
    requires
        lex_cmp(a, b) == Ordering::Equal,
    ensures
        a == b,
    decreases a.len(),
{
    if a.len() > 0 && b.len() > 0 {
        lemma_lex_equal(a.drop_first(), b.drop_first());
        assert(a =~= seq![a[0]] + a.drop_first());
        assert(b =~= seq![b[0]] + b.drop_first());
    }
}

pub proof fn lemma_lex_trans(a: Seq<char>, b: Seq<char>, c: Seq<char>)
    requires
        lex_cmp(a, b) == Ordering::Less,
        lex_cmp(b, c) == Ordering::Less,
    ensures
        lex_cmp(a, c) == Ordering::Less,
    decreases a.len(),
{
    if a.len() > 0 && b.len() > 0 && c.len() > 0 && a[0] == b[0] && b[0] == c[0] {
        lemma_lex_trans(a.drop_first(), b.drop_first(), c.drop_first());
    }
}

/// Siblings that tie on key and kind are interchangeable in `key_order`.
proof fn lemma_key_order_tie(x: (Seq<char>, bool), y: (Seq<char>, bool), z: (Seq<char>, bool))
    requires
        key_order(y, z) == Ordering::Equal,
    ensures
        key_order(x, z) == key_order(x, y),
        y.1 == z.1,
        sort_key_spec(y.0, y.1) == sort_key_spec(z.0, z.1),
{
    lemma_lex_equal(sort_key_spec(y.0, y.1), sort_key_spec(z.0, z.1));
}

/// Ordering siblings by key, and on equal keys a file before a folder, is a
/// total preorder: every sibling ties with itself, swapping two reverses
/// their order, and both "before" and "tied" carry over from `x`, `y` to
/// `y`, `z`.
pub proof fn lemma_key_order_total(x: (Seq<char>, bool), y: (Seq<char>, bool), z: (Seq<char>, bool))
    ensures
        key_order(x, x) == Ordering::Equal,
        key_order(y, x) == flip(key_order(x, y)),
        key_order(x, y) == Ordering::Less && key_order(y, z) == Ordering::Less ==> key_order(
            x,
            z,
        ) == Ordering::Less,
        key_order(x, y) == Ordering::Equal && key_order(y, z) == Ordering::Equal ==> key_order(
            x,
            z,
        ) == Ordering::Equal,
{
    let kx = sort_key_spec(x.0, x.1);
    let ky = sort_key_spec(y.0, y.1);
    let kz = sort_key_spec(z.0, z.1);
    lemma_lex_refl(kx);
    lemma_lex_flip(kx, ky);
    if key_order(x, y) == Ordering::Less && key_order(y, z) == Ordering::Less {
        if lex_cmp(kx, ky) == Ordering::Equal {
            lemma_lex_equal(kx, ky);
        }
        if lex_cmp(ky, kz) == Ordering::Equal {
            lemma_lex_equal(ky, kz);
        }
        if lex_cmp(kx, ky) == Ordering::Less && lex_cmp(ky, kz) == Ordering::Less {
            lemma_lex_trans(kx, ky, kz);
        }
    }
    if key_order(x, y) == Ordering::Equal && key_order(y, z) == Ordering::Equal {
        lemma_key_order_tie(x, y, z);
    }
}

/// The sibling order of `windows_sort` is a strict total order on `x`, `y`,
/// `z` wherever the natural order of their lowercase names is one: no
/// sibling comes before itself, swapping two reverses their order, and
/// "before" is transitive.
pub proof fn lemma_dir_order_total(x: (Seq<char>, bool), y: (Seq<char>, bool), z: (Seq<char>, bool))
    requires
        natural_order(lower_of(x.0), lower_of(x.0)) == Ordering::Equal,
        natural_order(lower_of(y.0), lower_of(x.0)) == flip(
            natural_order(lower_of(x.0), lower_of(y.0)),
        ),
        natural_order(lower_of(x.0), lower_of(y.0)) == Ordering::Less && natural_order(
            lower_of(y.0),
            lower_of(z.0),
        ) == Ordering::Less ==> natural_order(lower_of(x.0), lower_of(z.0)) == Ordering::Less,
    ensures
        dir_order(x, x) != Ordering::Less,
        dir_order(y, x) == flip(dir_order(x, y)),
        dir_order(x, y) == Ordering::Less && dir_order(y, z) == Ordering::Less ==> dir_order(
            x,
            z,
        ) == Ordering::Less,
{
    lemma_key_order_total(x, y, z);
    if dir_order(x, y) == Ordering::Less && dir_order(y, z) == Ordering::Less {
        if key_order(y, z) == Ordering::Equal {
            lemma_key_order_tie(x, y, z);
        } else if key_order(x, y) == Ordering::Equal {
            lemma_key_order_total(z, y, x);
            lemma_key_order_tie(z, y, x);
            lemma_key_order_total(x, z, y);
        }
    }
}

} // verus!
