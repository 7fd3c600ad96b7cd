//! An ordered map on a sorted vector.

use crate::text::to_chars;
use vstd::prelude::*;

verus! {

/// A key with a strict total order on what it stands for.
pub trait Key: View + Sized {
    spec fn below(a: Self::V, b: Self::V) -> bool;

    proof fn irreflexive(a: Self::V)
        ensures
            !Self::below(a, a),
    ;

    proof fn transitive(a: Self::V, b: Self::V, c: Self::V)
        requires
            Self::below(a, b),
            Self::below(b, c),
        ensures
            Self::below(a, c),
    ;

    proof fn total(a: Self::V, b: Self::V)
        ensures
            Self::below(a, b) || a == b || Self::below(b, a),
    ;

    fn is_below(&self, other: &Self) -> (r: bool)
        ensures
            r == Self::below(self@, other@),
    ;

    fn duplicate(&self) -> (r: Self)
        ensures
            r@ == self@,
    ;
}

impl Key for i32 {
    open spec fn below(a: i32, b: i32) -> bool {
        a < b
    }

    proof fn irreflexive(a: i32) {
    }

    proof fn transitive(a: i32, b: i32, c: i32) {
    }

    proof fn total(a: i32, b: i32) {
    }

    fn is_below(&self, other: &Self) -> (r: bool) {
        *self < *other
    }

    fn duplicate(&self) -> (r: Self) {
        *self
    }
}

impl Key for u8 {
    open spec fn below(a: u8, b: u8) -> bool {
        a < b
    }

    proof fn irreflexive(a: u8) {
    }

    proof fn transitive(a: u8, b: u8, c: u8) {
    }

    proof fn total(a: u8, b: u8) {
    }

    fn is_below(&self, other: &Self) -> (r: bool) {
        *self < *other
    }

    fn duplicate(&self) -> (r: Self) {
        *self
    }
}

impl Key for char {
    open spec fn below(a: char, b: char) -> bool {
        (a as int) < (b as int)
    }

    proof fn irreflexive(a: char) {
    }

    proof fn transitive(a: char, b: char, c: char) {
    }

    proof fn total(a: char, b: char) {
    }

    fn is_below(&self, other: &Self) -> (r: bool) {
        *self < *other
    }

    fn duplicate(&self) -> (r: Self) {
        *self
    }
}

/// `a` comes before `b`, item by item.
pub open spec fn list_below<K: Key>(a: Seq<K::V>, b: Seq<K::V>) -> bool
    decreases a.len(),
{
    if b.len() == 0 {
        false
    } else if a.len() == 0 {
        true
    } else {
        K::below(a[0], b[0]) || (a[0] == b[0] && list_below::<K>(a.drop_first(), b.drop_first()))
    }
}

proof fn lemma_list_irreflexive<K: Key>(a: Seq<K::V>)
    ensures
        !list_below::<K>(a, a),
    decreases a.len(),
{
    if a.len() > 0 {
        K::irreflexive(a[0]);
        lemma_list_irreflexive::<K>(a.drop_first());
    }
}

proof fn lemma_list_transitive<K: Key>(a: Seq<K::V>, b: Seq<K::V>, c: Seq<K::V>)
    requires
        list_below::<K>(a, b),
        list_below::<K>(b, c),
    ensures
        list_below::<K>(a, c),
    decreases a.len(),
{
    if a.len() > 0 && b.len() > 0 && c.len() > 0 {
        if a[0] == b[0] && b[0] == c[0] {
            if !K::below(a[0], c[0]) {
                lemma_list_transitive::<K>(a.drop_first(), b.drop_first(), c.drop_first());
            }
        } else if K::below(a[0], b[0]) && K::below(b[0], c[0]) {
            K::transitive(a[0], b[0], c[0]);
        }
    }
}

proof fn lemma_list_total<K: Key>(a: Seq<K::V>, b: Seq<K::V>)
    ensures
        list_below::<K>(a, b) || a == b || list_below::<K>(b, a),
    decreases a.len(),
{
    if a.len() == 0 {
        if b.len() == 0 {
            assert(a =~= b);
        }
    } else if b.len() > 0 {
        K::total(a[0], b[0]);
        if a[0] == b[0] {
            lemma_list_total::<K>(a.drop_first(), b.drop_first());
            if a.drop_first() == b.drop_first() {
                assert(a =~= seq![a[0]] + a.drop_first());
                assert(b =~= seq![b[0]] + b.drop_first());
            }
        }
    }
}

pub open spec fn views<K: Key>(v: Seq<K>) -> Seq<K::V> {
    v.map_values(|k: K| k@)
}

fn is_list_below<K: Key>(x: &Vec<K>, y: &Vec<K>) -> (r: bool)
    ensures
        r == list_below::<K>(views(x@), views(y@)),
{
    let ghost a = views(x@);
    let ghost b = views(y@);
    let mut i: usize = 0;
    proof {
        assert(a.skip(0) =~= a);
        assert(b.skip(0) =~= b);
    }
    while i < x.len() && i < y.len()
        invariant
            i <= x.len(),
            i <= y.len(),
            a == views(x@),
            b == views(y@),
            list_below::<K>(a, b) == list_below::<K>(a.skip(i as int), b.skip(i as int)),
        decreases x.len() - i,
    {
        proof {
            assert(a.skip(i as int).drop_first() =~= a.skip(i + 1));
            assert(b.skip(i as int).drop_first() =~= b.skip(i + 1));
            K::total(a[i as int], b[i as int]);
            K::irreflexive(a[i as int]);
        }
        if x[i].is_below(&y[i]) {
            return true;
        }
        if y[i].is_below(&x[i]) {
            proof {
                if a[i as int] == b[i as int] {
                    K::irreflexive(a[i as int]);
                }
            }
            return false;
        }
        i = i + 1;
    }
    i < y.len()
}

/// `a` comes before `b`, character by character.
pub open spec fn text_below(a: Seq<char>, b: Seq<char>) -> bool {
    list_below::<char>(a, b)
}

impl Key for String {
    open spec fn below(a: Seq<char>, b: Seq<char>) -> bool {
        text_below(a, b)
    }

    proof fn irreflexive(a: Seq<char>) {
        lemma_list_irreflexive::<char>(a);
    }

    proof fn transitive(a: Seq<char>, b: Seq<char>, c: Seq<char>) {
        lemma_list_transitive::<char>(a, b, c);
    }

    proof fn total(a: Seq<char>, b: Seq<char>) {
        lemma_list_total::<char>(a, b);
    }

    fn is_below(&self, other: &Self) -> (r: bool) {
        let x = to_chars(self.as_str());
        let y = to_chars(other.as_str());
        assert(views(x@) =~= self@);
        assert(views(y@) =~= other@);
        is_list_below(&x, &y)
    }

    fn duplicate(&self) -> (r: Self) {
        self.clone()
    }
}

/// A component of a path.
pub enum Part {
    /// The separator that an absolute path begins with.
    Root,
    /// A dot that a path begins with.
    Here,
    /// Two dots.
    Up,
    Name(Seq<u8>),
}

/// Where the piece of a path that stands at `i` ends.
pub open spec fn piece_end(path: Seq<u8>, i: int) -> int
    decreases path.len() - i,
{
    if i >= path.len() || path[i] == 47 {
        i
    } else {
        piece_end(path, i + 1)
    }
}

/// A piece of a path ends within it, and is not empty unless it begins with a
/// separator.
pub proof fn pieces_end_within_the_path(path: Seq<u8>, i: int)
    requires
        i < path.len(),
    ensures
        i <= piece_end(path, i) <= path.len(),
        path[i] != 47 ==> i < piece_end(path, i),
    decreases path.len() - i,
{
    if path[i] != 47 {
        if i + 1 < path.len() {
            pieces_end_within_the_path(path, i + 1);
        } else {
            assert(piece_end(path, i + 1) == i + 1);
        }
    }
}

/// The component that a piece of a path stands for. A dot counts only where the
/// path begins with it.
pub open spec fn part_of(piece: Seq<u8>, first: bool) -> Option<Part> {
    if piece == seq![46u8] {
        if first {
            Some(Part::Here)
        } else {
            None
        }
    } else if piece == seq![46u8, 46u8] {
        Some(Part::Up)
    } else {
        Some(Part::Name(piece))
    }
}

/// The components of the rest of a path from `i` on, which are set apart by one
/// or more separators.
pub open spec fn parts_from(path: Seq<u8>, i: int) -> Seq<Part>
    decreases path.len() - i,
{
    if i >= path.len() {
        seq![]
    } else if path[i] == 47 {
        parts_from(path, i + 1)
    } else {
        let end = piece_end(path, i);
        proof {
            pieces_end_within_the_path(path, i);
        }
        match part_of(path.subrange(i, end), i == 0) {
            Some(p) => seq![p] + parts_from(path, end),
            None => parts_from(path, end),
        }
    }
}

/// The components of a path.
pub open spec fn parts(path: Seq<u8>) -> Seq<Part> {
    (if path.len() > 0 && path[0] == 47 {
        seq![Part::Root]
    } else {
        seq![]
    }) + parts_from(path, 0)
}

/// The kinds of components come in this order; names are ordered byte by byte.
pub open spec fn part_below(a: Part, b: Part) -> bool {
    match (a, b) {
        (Part::Name(x), Part::Name(y)) => list_below::<u8>(x, y),
        _ => part_rank(a) < part_rank(b),
    }
}

pub open spec fn part_rank(a: Part) -> int {
    match a {
        Part::Root => 0,
        Part::Here => 1,
        Part::Up => 2,
        Part::Name(_) => 3,
    }
}

/// A component of a path, as it is held.
#[derive(Clone, Debug)]
pub enum Piece {
    Root,
    Here,
    Up,
    Name(Vec<u8>),
}

impl View for Piece {
    type V = Part;

    open spec fn view(&self) -> Part {
        match self {
            Piece::Root => Part::Root,
            Piece::Here => Part::Here,
            Piece::Up => Part::Up,
            Piece::Name(bytes) => Part::Name(bytes@),
        }
    }
}

impl Piece {
    fn rank(&self) -> (r: u8)
        ensures
            r == part_rank(self@),
    {
        match self {
            Piece::Root => 0,
            Piece::Here => 1,
            Piece::Up => 2,
            Piece::Name(_) => 3,
        }
    }
}

impl Key for Piece {
    open spec fn below(a: Part, b: Part) -> bool {
        part_below(a, b)
    }

    proof fn irreflexive(a: Part) {
        if let Part::Name(x) = a {
            lemma_list_irreflexive::<u8>(x);
        }
    }

    proof fn transitive(a: Part, b: Part, c: Part) {
        if let (Part::Name(x), Part::Name(z)) = (a, c) {
            if let Part::Name(y) = b {
                lemma_list_transitive::<u8>(x, y, z);
            }
        }
    }

    proof fn total(a: Part, b: Part) {
        if let (Part::Name(x), Part::Name(y)) = (a, b) {
            lemma_list_total::<u8>(x, y);
        }
    }

    fn is_below(&self, other: &Self) -> (r: bool) {
        match (self, other) {
            (Piece::Name(x), Piece::Name(y)) => {
                assert(views(x@) =~= x@);
                assert(views(y@) =~= y@);
                is_list_below(x, y)
            },
            _ => self.rank() < other.rank(),
        }
    }

    fn duplicate(&self) -> (r: Self) {
        match self {
            Piece::Root => Piece::Root,
            Piece::Here => Piece::Here,
            Piece::Up => Piece::Up,
            Piece::Name(bytes) => {
                let copy = bytes.clone();
                assert(copy@ =~= bytes@);
                Piece::Name(copy)
            },
        }
    }
}

/// The path of a file. Paths with the same components are the same, and paths
/// are ordered component by component.
#[derive(Debug)]
pub struct FilePath {
    bytes: Vec<u8>,
    pieces: Vec<Piece>,
}

impl View for FilePath {
    type V = Seq<Part>;

    /// The components of the path.
    closed spec fn view(&self) -> Seq<Part> {
        views(self.pieces@)
    }
}

proof fn lemma_piece_end(path: Seq<u8>, i: int, end: int)
    requires
        0 <= i <= end <= path.len(),
        forall|k: int| i <= k < end ==> path[k] != 47,
        end == path.len() || path[end] == 47,
    ensures
        piece_end(path, i) == end,
    decreases end - i,
{
    if i < end {
        lemma_piece_end(path, i + 1, end);
    }
}

impl FilePath {
    #[verifier::type_invariant]
    spec fn taken_apart(self) -> bool {
        views(self.pieces@) == parts(self.bytes@)
    }

    /// The path that is written with these bytes.
    pub fn new(bytes: Vec<u8>) -> (r: FilePath)
        ensures
            r@ == parts(bytes@),
    {
        let ghost path = bytes@;
        let n: usize = bytes.len();
        let mut pieces: Vec<Piece> = Vec::new();
        if n > 0 && bytes[0] == 47 {
            pieces.push(Piece::Root);
        }
        let ghost root = views(pieces@);
        assert(root + parts_from(path, 0) =~= parts(path));
        let mut i: usize = 0;
        while i < n
            invariant
                i <= n,
                n == bytes.len(),
                path == bytes@,
                views(pieces@) + parts_from(path, i as int) =~= parts(path),
            decreases n - i,
        {
            let ghost before = views(pieces@);
            if bytes[i] == 47 {
                i = i + 1;
            } else {
                let start: usize = i;
                let mut name: Vec<u8> = Vec::new();
                while i < n && bytes[i] != 47
                    invariant
                        start <= i <= n,
                        n == bytes.len(),
                        path == bytes@,
                        start < n,
                        path[start as int] != 47,
                        name@ =~= path.subrange(start as int, i as int),
                        forall|k: int| start <= k < i ==> path[k] != 47,
                    decreases n - i,
                {
                    name.push(bytes[i]);
                    i = i + 1;
                }
                proof {
                    lemma_piece_end(path, start as int, i as int);
                }
                let ghost whole = name@;
                if name.len() == 1 && name[0] == 46 {
                    assert(whole =~= seq![46u8]);
                    if start == 0 {
                        pieces.push(Piece::Here);
                        assert(views(pieces@) =~= before.push(Part::Here));
                    }
                } else if name.len() == 2 && name[0] == 46 && name[1] == 46 {
                    assert(whole =~= seq![46u8, 46u8]);
                    pieces.push(Piece::Up);
                    assert(views(pieces@) =~= before.push(Part::Up));
                } else {
                    assert(whole != seq![46u8] && whole != seq![46u8, 46u8]);
                    pieces.push(Piece::Name(name));
                    assert(views(pieces@) =~= before.push(Part::Name(whole)));
                }
            }
        }
        assert(views(pieces@) =~= parts(path));
        FilePath { bytes, pieces }
    }

    /// The bytes that the path is written with.
    pub fn bytes(&self) -> (r: &Vec<u8>)
        ensures
            parts(r@) == self@,
    {
        proof {
            use_type_invariant(self);
        }
        &self.bytes
    }
}

impl Key for FilePath {
    open spec fn below(a: Seq<Part>, b: Seq<Part>) -> bool {
        list_below::<Piece>(a, b)
    }

    proof fn irreflexive(a: Seq<Part>) {
        lemma_list_irreflexive::<Piece>(a);
    }

    proof fn transitive(a: Seq<Part>, b: Seq<Part>, c: Seq<Part>) {
        lemma_list_transitive::<Piece>(a, b, c);
    }

    proof fn total(a: Seq<Part>, b: Seq<Part>) {
        lemma_list_total::<Piece>(a, b);
    }

    fn is_below(&self, other: &Self) -> (r: bool) {
        is_list_below(&self.pieces, &other.pieces)
    }

    fn duplicate(&self) -> (r: Self) {
        proof {
            use_type_invariant(self);
        }
        let bytes = self.bytes.clone();
        assert(bytes@ =~= self.bytes@);
        FilePath::new(bytes)
    }
}

impl Clone for FilePath {
    fn clone(&self) -> (r: FilePath)
        ensures
            r@ == self@,
    {
        self.duplicate()
    }
}

/// A map kept in key order.
#[derive(Debug)]
pub struct Table<K: Key, T> {
    keys: Vec<K>,
    values: Vec<T>,
}

impl<K: Key, T> Table<K, T> {
    /// The keys, ascending.
    pub closed spec fn keys(self) -> Seq<K::V> {
        self.keys@.map_values(|k: K| k@)
    }

    /// The values, in the order of their keys.
    pub closed spec fn values(self) -> Seq<T> {
        self.values@
    }

    #[verifier::type_invariant]
    spec fn ordered(self) -> bool {
        &&& self.keys.len() == self.values.len()
        &&& ascending::<K>(self.keys())
    }
}

pub open spec fn ascending<K: Key>(keys: Seq<K::V>) -> bool {
    forall|i: int, j: int| 0 <= i < j < keys.len() ==> K::below(#[trigger] keys[i], #[trigger] keys[j])
}

/// The map that pairs `keys[i]` with `values[i]`.
pub open spec fn paired<A, T>(keys: Seq<A>, values: Seq<T>) -> Map<A, T> {
    Map::new(|k: A| keys.contains(k), |k: A| values[keys.index_of(k)])
}

impl<K: Key, T> View for Table<K, T> {
    type V = Map<K::V, T>;

    open spec fn view(&self) -> Map<K::V, T> {
        paired(self.keys(), self.values())
    }
}

proof fn lemma_distinct<K: Key>(keys: Seq<K::V>)
    requires
        ascending::<K>(keys),
    ensures
        keys.no_duplicates(),
        forall|i: int| 0 <= i < keys.len() ==> keys.index_of(#[trigger] keys[i]) == i,
{
    assert forall|i: int, j: int| 0 <= i < keys.len() && 0 <= j < keys.len() && i != j implies keys[i]
        != keys[j] by {
        K::irreflexive(keys[i]);
    }
    assert forall|i: int| 0 <= i < keys.len() implies keys.index_of(#[trigger] keys[i]) == i by {
        let k = keys.index_of(keys[i]);
        assert(0 <= k < keys.len() && keys[k] == keys[i]);
    }
}

/// Keys stand in one order.
pub proof fn order_is_unique<K: Key>(a: Seq<K::V>, b: Seq<K::V>)
    requires
        ascending::<K>(a),
        ascending::<K>(b),
        forall|x: K::V| #![auto] a.contains(x) <==> b.contains(x),
    ensures
        a == b,
    decreases a.len(),
{
    lemma_distinct::<K>(a);
    lemma_distinct::<K>(b);
    if a.len() == 0 {
        if b.len() > 0 {
            assert(b.contains(b[0]));
        }
        assert(a =~= b);
    } else {
        assert(a.contains(a.last()));
        assert(b.len() > 0);
        assert(b.contains(b.last()));
        let i = a.index_of(b.last());
        let j = b.index_of(a.last());
        if i < a.len() - 1 && j < b.len() - 1 {
            K::transitive(a.last(), b.last(), a.last());
            K::irreflexive(a.last());
        }
        assert(a.last() == b.last());
        let ra = a.drop_last();
        let rb = b.drop_last();
        assert forall|x: K::V| #![auto] ra.contains(x) <==> rb.contains(x) by {
            if ra.contains(x) {
                let h = ra.index_of(x);
                assert(a[h] == x && h < a.len() - 1);
                assert(a.contains(x) && x != a.last());
                assert(b.contains(x));
                let k = b.index_of(x);
                assert(rb[k] == x);
            }
            if rb.contains(x) {
                let h = rb.index_of(x);
                assert(b[h] == x && h < b.len() - 1);
                assert(b.contains(x) && x != b.last());
                assert(a.contains(x));
                let k = a.index_of(x);
                assert(ra[k] == x);
            }
        }
        order_is_unique::<K>(ra, rb);
        assert(a =~= ra.push(a.last()));
        assert(b =~= rb.push(b.last()));
    }
}

proof fn lemma_paired<K: Key, T>(keys: Seq<K::V>, values: Seq<T>)
    requires
        ascending::<K>(keys),
        keys.len() == values.len(),
    ensures
        forall|i: int|
            0 <= i < keys.len() ==> paired(keys, values).dom().contains(#[trigger] keys[i])
                && paired(keys, values)[keys[i]] == values[i],
{
    lemma_distinct::<K>(keys);
}

/// Each key is paired with the value beside it.
pub proof fn paired_at<K: Key, T>(keys: Seq<K::V>, values: Seq<T>, i: int)
    requires
        ascending::<K>(keys),
        keys.len() == values.len(),
        0 <= i < keys.len(),
    ensures
        paired(keys, values).dom().contains(keys[i]),
        paired(keys, values)[keys[i]] == values[i],
{
    lemma_paired::<K, T>(keys, values);
}

proof fn lemma_set<K: Key, T>(keys: Seq<K::V>, values: Seq<T>, i: int, v: T)
    requires
        ascending::<K>(keys),
        keys.len() == values.len(),
        0 <= i < keys.len(),
    ensures
        paired(keys, values.update(i, v)) == paired(keys, values).insert(keys[i], v),
{
    lemma_distinct::<K>(keys);
    assert(paired(keys, values.update(i, v)) =~= paired(keys, values).insert(keys[i], v));
}

proof fn lemma_add<K: Key, T>(keys: Seq<K::V>, values: Seq<T>, i: int, k: K::V, v: T)
    requires
        ascending::<K>(keys),
        keys.len() == values.len(),
        0 <= i <= keys.len(),
        forall|j: int| 0 <= j < i ==> K::below(#[trigger] keys[j], k),
        forall|j: int| i <= j < keys.len() ==> K::below(k, #[trigger] keys[j]),
    ensures
        ascending::<K>(keys.insert(i, k)),
        paired(keys.insert(i, k), values.insert(i, v)) == paired(keys, values).insert(k, v),
{
    let ks = keys.insert(i, k);
    let vs = values.insert(i, v);
    assert(ascending::<K>(ks));
    lemma_distinct::<K>(keys);
    lemma_distinct::<K>(ks);
    assert(ks[i] == k);
    assert forall|x: K::V| ks.contains(x) <==> keys.contains(x) || x == k by {
        if keys.contains(x) {
            let j = keys.index_of(x);
            assert(ks[if j < i { j } else { j + 1 }] == x);
        }
        if ks.contains(x) && x != k {
            let j = ks.index_of(x);
            assert(keys[if j < i { j } else { j - 1 }] == x);
        }
    }
    assert forall|x: K::V| keys.contains(x) && x != k implies #[trigger] vs[ks.index_of(x)]
        == values[keys.index_of(x)] by {
        let j = keys.index_of(x);
        let h = if j < i {
            j
        } else {
            j + 1
        };
        assert(ks[h] == x);
        assert(ks.index_of(ks[h]) == h);
    }
    assert(paired(ks, vs) =~= paired(keys, values).insert(k, v));
}

impl<K: Key, T> Table<K, T> {
    pub fn new() -> (r: Self)
        ensures
            r@ == Map::<K::V, T>::empty(),
            r.keys() == Seq::<K::V>::empty(),
            r.values() == Seq::<T>::empty(),
    {
        let r = Table { keys: Vec::new(), values: Vec::new() };
        assert(r.keys() =~= Seq::<K::V>::empty());
        assert(r@ =~= Map::<K::V, T>::empty());
        r
    }

    pub fn len(&self) -> (r: usize)
        ensures
            r == self.keys().len(),
            r == self.values().len(),
            ascending::<K>(self.keys()),
    {
        proof {
            use_type_invariant(self);
        }
        self.keys.len()
    }

    pub fn key_at(&self, i: usize) -> (r: &K)
        requires
            i < self.keys().len(),
        ensures
            r@ == self.keys()[i as int],
    {
        &self.keys[i]
    }

    pub fn value_at(&self, i: usize) -> (r: &T)
        requires
            i < self.values().len(),
        ensures
            *r == self.values()[i as int],
            self.keys().len() == self.values().len(),
            self@.dom().contains(self.keys()[i as int]),
            self@[self.keys()[i as int]] == *r,
    {
        proof {
            use_type_invariant(self);
            lemma_paired::<K, T>(self.keys(), self.values());
        }
        &self.values[i]
    }

    /// Where `key` is, or where it would go.
    fn position(&self, key: &K) -> (r: (bool, usize))
        ensures
            self.keys().len() == self.values().len(),
            ascending::<K>(self.keys()),
            r.1 <= self.keys().len(),
            r.0 ==> r.1 < self.keys().len() && self.keys()[r.1 as int] == key@,
            forall|j: int| 0 <= j < r.1 ==> K::below(#[trigger] self.keys()[j], key@),
            !r.0 ==> forall|j: int|
                r.1 <= j < self.keys().len() ==> K::below(key@, #[trigger] self.keys()[j]),
    {
        proof {
            use_type_invariant(self);
        }
        let ghost ks = self.keys();
        let mut lo: usize = 0;
        let mut hi: usize = self.keys.len();
        while lo < hi
            invariant
                lo <= hi <= self.keys.len(),
                ks == self.keys(),
                ascending::<K>(ks),
                forall|j: int| 0 <= j < lo ==> K::below(#[trigger] ks[j], key@),
                forall|j: int| hi <= j < ks.len() ==> !K::below(#[trigger] ks[j], key@),
            decreases hi - lo,
        {
            let mid: usize = lo + (hi - lo) / 2;
            assert(ks[mid as int] == self.keys[mid as int]@);
            if self.keys[mid].is_below(key) {
                proof {
                    assert forall|j: int| 0 <= j <= mid implies K::below(#[trigger] ks[j], key@) by {
                        if j < mid {
                            K::transitive(ks[j], ks[mid as int], key@);
                        }
                    }
                }
                lo = mid + 1;
            } else {
                proof {
                    assert forall|j: int| mid <= j < ks.len() implies !K::below(
                        #[trigger] ks[j],
                        key@,
                    ) by {
                        if j > mid && K::below(ks[j], key@) {
                            K::transitive(ks[mid as int], ks[j], key@);
                        }
                    }
                }
                hi = mid;
            }
        }
        let found = lo < self.keys.len() && !key.is_below(&self.keys[lo]);
        proof {
            if lo < ks.len() {
                assert(ks[lo as int] == self.keys[lo as int]@);
                K::total(ks[lo as int], key@);
                if !found {
                    assert forall|j: int| lo <= j < ks.len() implies K::below(
                        key@,
                        #[trigger] ks[j],
                    ) by {
                        if j > lo {
                            K::transitive(key@, ks[lo as int], ks[j]);
                        }
                    }
                }
            }
        }
        (found, lo)
    }

    pub fn get(&self, key: &K) -> (r: Option<&T>)
        ensures
            match r {
                Some(v) => self@.dom().contains(key@) && *v == self@[key@],
                None => !self@.dom().contains(key@),
            },
    {
        let (found, i) = self.position(key);
        proof {
            lemma_paired::<K, T>(self.keys(), self.values());
            if !found && self.keys().contains(key@) {
                let j = self.keys().index_of(key@);
                K::irreflexive(key@);
            }
        }
        if found {
            Some(&self.values[i])
        } else {
            None
        }
    }

    /// Sets the value of `key`, new or not.
    pub fn insert(&mut self, key: K, value: T)
        ensures
            final(self)@ == old(self)@.insert(key@, value),
    {
        let (found, i) = self.position(&key);
        let ghost ks = self.keys();
        let ghost vs = self.values();
        let ghost k = key@;
        let mut taken: Table<K, T> = Table::new();
        std::mem::swap(&mut taken, self);
        let Table { keys: mut keys, values: mut values } = taken;
        if found {
            values.set(i, value);
            proof {
                lemma_set::<K, T>(ks, vs, i as int, value);
            }
        } else {
            keys.insert(i, key);
            values.insert(i, value);
            proof {
                assert(keys@.map_values(|k: K| k@) =~= ks.insert(i as int, k));
                lemma_add::<K, T>(ks, vs, i as int, k, value);
            }
        }
        *self = Table { keys, values };
    }
}

impl<K: Key, T> Table<K, T> {
    /// The keys and the values, in key order.
    pub fn into_parts(self) -> (r: (Vec<K>, Vec<T>))
        ensures
            r.0@.map_values(|k: K| k@) == self.keys(),
            r.1@ == self.values(),
            r.0.len() == r.1.len(),
            ascending::<K>(self.keys()),
    {
        proof {
            use_type_invariant(&self);
        }
        let Table { keys, values } = self;
        (keys, values)
    }

    pub fn from_parts(keys: Vec<K>, values: Vec<T>) -> (r: Self)
        requires
            keys.len() == values.len(),
            ascending::<K>(keys@.map_values(|k: K| k@)),
        ensures
            r.keys() == keys@.map_values(|k: K| k@),
            r.values() == values@,
    {
        Table { keys, values }
    }
}

impl<K: Key, T: Clone> Clone for Table<K, T> {
    fn clone(&self) -> (r: Self)
        ensures
            r.keys() == self.keys(),
            forall|i: int|
                0 <= i < self.values().len() ==> cloned::<T>(
                    #[trigger] self.values()[i],
                    r.values()[i],
                ),
    {
        proof {
            use_type_invariant(self);
        }
        let mut keys: Vec<K> = Vec::new();
        for i in 0..self.keys.len()
            invariant
                keys@.map_values(|k: K| k@) =~= self.keys().take(i as int),
                keys.len() == i,
                self.keys().len() == self.keys.len(),
        {
            keys.push(self.keys[i].duplicate());
        }
        assert(self.keys().take(self.keys.len() as int) =~= self.keys());
        Table { keys, values: self.values.clone() }
    }
}

/// Texts are in the order of the dictionary: one comes before those that it begins,
/// and otherwise the first character in which they differ decides.
pub proof fn texts_are_in_dictionary_order(
    head: Seq<char>,
    x: char,
    a: Seq<char>,
    y: char,
    b: Seq<char>,
)
    ensures
        text_below(head, head + seq![x] + a),
        !text_below(head + seq![x] + a, head),
        (x as int) < (y as int) ==> text_below(head + seq![x] + a, head + seq![y] + b),
        (x as int) > (y as int) ==> !text_below(head + seq![x] + a, head + seq![y] + b),
    decreases head.len(),
{
    let (s, t) = (head + seq![x] + a, head + seq![y] + b);
    if head.len() > 0 {
        let rest = head.drop_first();
        texts_are_in_dictionary_order(rest, x, a, y, b);
        assert(s.drop_first() =~= rest + seq![x] + a);
        assert(t.drop_first() =~= rest + seq![y] + b);
        assert(s[0] == head[0] && t[0] == head[0]);
    } else {
        assert(s[0] == x && t[0] == y);
    }
}

/// One separator parts the names of a path as well as many do, and a dot between
/// separators counts for nothing; a path is absolute when it begins with one.
pub proof fn separators_and_dots_in_paths(path: Seq<u8>, i: int)
    requires
        0 <= i < path.len(),
    ensures
        path[i] == 47 ==> parts_from(path, i) == parts_from(path, i + 1),
        i > 0 && path[i] == 46 && (i + 1 == path.len() || path[i + 1] == 47) ==> parts_from(path, i)
            == parts_from(path, i + 1),
        path[0] == 47 <==> parts(path).len() > 0 && parts(path)[0] == Part::Root,
{
    if i > 0 && path[i] == 46 && (i + 1 == path.len() || path[i + 1] == 47) {
        lemma_piece_end(path, i, i + 1);
        assert(path.subrange(i, i + 1) =~= seq![46u8]);
    }
    if path[0] != 47 {
        lemma_no_root(path, 0);
        assert(parts(path) =~= parts_from(path, 0));
        if parts(path).len() > 0 {
            assert(parts_from(path, 0)[0] != Part::Root);
        }
    }
}

proof fn lemma_no_root(path: Seq<u8>, i: int)
    requires
        0 <= i,
    ensures
        parts_from(path, i).len() > 0 ==> parts_from(path, i)[0] != Part::Root,
    decreases path.len() - i,
{
    if i < path.len() {
        if path[i] == 47 {
            lemma_no_root(path, i + 1);
        } else {
            pieces_end_within_the_path(path, i);
            lemma_no_root(path, piece_end(path, i));
        }
    }
}

} // verus!
