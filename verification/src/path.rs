//! The library's model of a file-system path: its display text and its
//! parsed components, with the component order, prefix test, file name,
//! extension and stem that std's `Path` defines over them.
use vstd::prelude::*;


verus! {

/// The kind of a path component, in the order in which std's `Component`
/// (and, for a prefix, std's `Prefix`) compares them.
#[derive(Debug, Clone, Copy, PartialEq, Eq, Structural)]
pub enum PartKind {
    Verbatim,
    VerbatimUnc,
    VerbatimDisk,
    DeviceNs,
    Unc,
    Disk,
    RootDir,
    CurDir,
    ParentDir,
    Normal,
}

/// The position of a kind in the component order.
pub open spec fn kind_rank(k: PartKind) -> int {
    match k {
        PartKind::Verbatim => 0,
        PartKind::VerbatimUnc => 1,
        PartKind::VerbatimDisk => 2,
        PartKind::DeviceNs => 3,
        PartKind::Unc => 4,
        PartKind::Disk => 5,
        PartKind::RootDir => 6,
        PartKind::CurDir => 7,
        PartKind::ParentDir => 8,
        PartKind::Normal => 9,
    }
}

/// One component of a path. `first` and `second` hold the component's
/// fields as encoded bytes, in order: the name of a normal component, the
/// drive letter of a disk prefix, the server and share of a UNC prefix;
/// fields that a kind lacks are empty. `shown` is the component as std's
/// `to_string_lossy` gives it.
#[derive(Debug, Clone)]
pub struct PathPart {
    pub kind: PartKind,
    pub first: Vec<u8>,
    pub second: Vec<u8>,
    pub shown: String,
}

/// A component as a value: the rank of its kind and its two fields.
pub type PartKey = (int, Seq<u8>, Seq<u8>);

impl View for PathPart {
    type V = PartKey;

    open spec fn view(&self) -> PartKey {
        (kind_rank(self.kind), self.first@, self.second@)
    }
}

/// A path: the text that std's `to_string_lossy` gives of it, the
/// components that std's `components` gives of it, and its bytes as the
/// platform encodes them (std's `as_encoded_bytes`), by which it is opened.
#[derive(Debug, Clone)]
pub struct FilePath {
    pub text: String,
    pub parts: Vec<PathPart>,
    pub encoded: Vec<u8>,
}

impl View for FilePath {
    type V = Seq<PartKey>;

    open spec fn view(&self) -> Seq<PartKey> {
        self.parts@.map_values(|p: PathPart| p@)
    }
}

/// The result of comparing two values.
#[derive(Debug, Clone, Copy, PartialEq, Eq, Structural)]
pub enum Precedence {
    Before,
    Same,
    After,
}

/// Strict lexicographic order on byte strings (a proper prefix comes first).
pub open spec fn bytes_lt(a: Seq<u8>, b: Seq<u8>) -> bool
    decreases a.len(),
{
    if a.len() == 0 {
        b.len() > 0
    } else if b.len() == 0 {
        false
    } else if a[0] != b[0] {
        a[0] < b[0]
    } else {
        bytes_lt(a.drop_first(), b.drop_first())
    }
}

/// Strict order on components: by kind, then by the first field, then by the second.
pub open spec fn part_lt(x: PartKey, y: PartKey) -> bool {
    ||| x.0 < y.0
    ||| x.0 == y.0 && bytes_lt(x.1, y.1)
    ||| x.0 == y.0 && x.1 == y.1 && bytes_lt(x.2, y.2)
}

/// Strict lexicographic order on component sequences: std's order on paths.
pub open spec fn parts_lt(a: Seq<PartKey>, b: Seq<PartKey>) -> bool
    decreases a.len(),
{
    if a.len() == 0 {
        b.len() > 0
    } else if b.len() == 0 {
        false
    } else if a[0] != b[0] {
        part_lt(a[0], b[0])
    } else {
        parts_lt(a.drop_first(), b.drop_first())
    }
}

/// std's `Path::starts_with`: the components of `base` begin those of `path`.
pub open spec fn path_starts_with(path: Seq<PartKey>, base: Seq<PartKey>) -> bool {
    base.len() <= path.len() && path.take(base.len() as int) == base
}

/// std's `Path::file_name`: the last component when it is a normal one.
pub open spec fn file_name_of(path: Seq<PartKey>) -> Option<Seq<u8>> {
    if path.len() > 0 && path.last().0 == 9 {
        Some(path.last().1)
    } else {
        None
    }
}

/// The index of the last occurrence of `b` in `s`, or -1.
pub open spec fn last_index_of(s: Seq<u8>, b: u8) -> int
    decreases s.len(),
{
    if s.len() == 0 {
        -1
    } else if s.last() == b {
        s.len() - 1
    } else {
        last_index_of(s.drop_last(), b)
    }
}

pub open spec fn dot() -> u8 {
    46
}

/// The name `..`.
pub open spec fn is_parent_name(name: Seq<u8>) -> bool {
    name == seq![dot(), dot()]
}

/// std's split of a file name at its last dot: the extension, if any.
pub open spec fn name_extension(name: Seq<u8>) -> Option<Seq<u8>> {
    let p = last_index_of(name, dot());
    if is_parent_name(name) || p <= 0 {
        None
    } else {
        Some(name.subrange(p + 1, name.len() as int))
    }
}

/// std's split of a file name at its last dot: the stem.
pub open spec fn name_stem(name: Seq<u8>) -> Seq<u8> {
    let p = last_index_of(name, dot());
    if is_parent_name(name) || p <= 0 {
        name
    } else {
        name.subrange(0, p)
    }
}

/// std's `Path::extension`.
pub open spec fn extension_of(path: Seq<PartKey>) -> Option<Seq<u8>> {
    match file_name_of(path) {
        Some(name) => name_extension(name),
        None => None,
    }
}

pub proof fn lemma_bytes_lt_irreflexive(a: Seq<u8>)
    ensures
        !bytes_lt(a, a),
    decreases a.len(),
{
    if a.len() > 0 {
        lemma_bytes_lt_irreflexive(a.drop_first());
    }
}

pub proof fn lemma_bytes_lt_transitive(a: Seq<u8>, b: Seq<u8>, c: Seq<u8>)
    requires
        bytes_lt(a, b),
        bytes_lt(b, c),
    ensures
        bytes_lt(a, c),
    decreases a.len(),
{
    if a.len() > 0 && b.len() > 0 && c.len() > 0 && a[0] == b[0] && b[0] == c[0] {
        lemma_bytes_lt_transitive(a.drop_first(), b.drop_first(), c.drop_first());
    }
}

pub proof fn lemma_bytes_lt_total(a: Seq<u8>, b: Seq<u8>)
    ensures
        bytes_lt(a, b) || bytes_lt(b, a) || a == b,
    decreases a.len(),
{
    if a.len() == 0 && b.len() == 0 {
        assert(a =~= b);
    } else if a.len() > 0 && b.len() > 0 && a[0] == b[0] {
        lemma_bytes_lt_total(a.drop_first(), b.drop_first());
        if a.drop_first() == b.drop_first() {
            assert(a =~= seq![a[0]] + a.drop_first());
            assert(b =~= seq![b[0]] + b.drop_first());
        }
    }
}

pub proof fn lemma_bytes_lt_asymmetric(a: Seq<u8>, b: Seq<u8>)
    requires
        bytes_lt(a, b),
    ensures
        !bytes_lt(b, a),
{
    if bytes_lt(b, a) {
        lemma_bytes_lt_transitive(a, b, a);
        lemma_bytes_lt_irreflexive(a);
    }
}

pub proof fn lemma_part_lt_irreflexive(x: PartKey)
    ensures
        !part_lt(x, x),
{
    lemma_bytes_lt_irreflexive(x.1);
    lemma_bytes_lt_irreflexive(x.2);
}

pub proof fn lemma_part_lt_transitive(x: PartKey, y: PartKey, z: PartKey)
    requires
        part_lt(x, y),
        part_lt(y, z),
    ensures
        part_lt(x, z),
{
    if x.0 == y.0 && y.0 == z.0 {
        if bytes_lt(x.1, y.1) && bytes_lt(y.1, z.1) {
            lemma_bytes_lt_transitive(x.1, y.1, z.1);
        }
        if x.1 == y.1 && y.1 == z.1 {
            lemma_bytes_lt_irreflexive(x.1);
            lemma_bytes_lt_transitive(x.2, y.2, z.2);
        }
    }
}

pub proof fn lemma_part_lt_total(x: PartKey, y: PartKey)
    ensures
        part_lt(x, y) || part_lt(y, x) || x == y,
{
    lemma_bytes_lt_total(x.1, y.1);
    lemma_bytes_lt_total(x.2, y.2);
}

pub proof fn lemma_parts_lt_irreflexive(a: Seq<PartKey>)
    ensures
        !parts_lt(a, a),
    decreases a.len(),
{
    if a.len() > 0 {
        lemma_parts_lt_irreflexive(a.drop_first());
    }
}

pub proof fn lemma_parts_lt_transitive(a: Seq<PartKey>, b: Seq<PartKey>, c: Seq<PartKey>)
    requires
        parts_lt(a, b),
        parts_lt(b, c),
    ensures
        parts_lt(a, c),
    decreases a.len(),
{
    if a.len() > 0 && b.len() > 0 && c.len() > 0 {
        if a[0] == b[0] && b[0] == c[0] {
            lemma_parts_lt_transitive(a.drop_first(), b.drop_first(), c.drop_first());
        } else if a[0] != b[0] && b[0] != c[0] {
            lemma_part_lt_transitive(a[0], b[0], c[0]);
            if a[0] == c[0] {
                lemma_part_lt_irreflexive(a[0]);
            }
        }
    }
}

pub proof fn lemma_parts_lt_total(a: Seq<PartKey>, b: Seq<PartKey>)
    ensures
        parts_lt(a, b) || parts_lt(b, a) || a == b,
    decreases a.len(),
{
    if a.len() == 0 && b.len() == 0 {
        assert(a =~= b);
    } else if a.len() > 0 && b.len() > 0 {
        if a[0] == b[0] {
            lemma_parts_lt_total(a.drop_first(), b.drop_first());
            if a.drop_first() == b.drop_first() {
                assert(a =~= seq![a[0]] + a.drop_first());
                assert(b =~= seq![b[0]] + b.drop_first());
            }
        } else {
            lemma_part_lt_total(a[0], b[0]);
        }
    }
}

pub proof fn lemma_parts_lt_asymmetric(a: Seq<PartKey>, b: Seq<PartKey>)
    requires
        parts_lt(a, b),
    ensures
        !parts_lt(b, a),
{
    if parts_lt(b, a) {
        lemma_parts_lt_transitive(a, b, a);
        lemma_parts_lt_irreflexive(a);
    }
}

proof fn lemma_bytes_lt_step(a: Seq<u8>, b: Seq<u8>, i: int)
    requires
        0 <= i < a.len(),
        i < b.len(),
        a[i] == b[i],
    ensures
        bytes_lt(a.skip(i), b.skip(i)) == bytes_lt(a.skip(i + 1), b.skip(i + 1)),
{
    assert(a.skip(i).drop_first() =~= a.skip(i + 1));
    assert(b.skip(i).drop_first() =~= b.skip(i + 1));
}

/// Compares two byte strings in lexicographic order.
pub fn compare_bytes(a: &[u8], b: &[u8]) -> (r: Precedence)
    ensures
        (r == Precedence::Before) == bytes_lt(a@, b@),
        (r == Precedence::Same) == (a@ == b@),
        (r == Precedence::After) == bytes_lt(b@, a@),
{
    let mut i: usize = 0;
    assert(a@.skip(0) =~= a@);
    assert(b@.skip(0) =~= b@);
    while i < a.len() && i < b.len()
        invariant
            i <= a@.len(),
            i <= b@.len(),
            forall|k: int| 0 <= k < i ==> a@[k] == b@[k],
            bytes_lt(a@, b@) == bytes_lt(a@.skip(i as int), b@.skip(i as int)),
            bytes_lt(b@, a@) == bytes_lt(b@.skip(i as int), a@.skip(i as int)),
        decreases a@.len() - i,
    {
        if a[i] != b[i] {
            proof {
                lemma_bytes_lt_total(a@, b@);
                lemma_bytes_lt_irreflexive(a@);
                if a@ == b@ {
                    assert(a@[i as int] == b@[i as int]);
                }
            }
            if a[i] < b[i] {
                proof { lemma_bytes_lt_asymmetric(a@, b@); }
                return Precedence::Before;
            } else {
                proof { lemma_bytes_lt_asymmetric(b@, a@); }
                return Precedence::After;
            }
        }
        proof {
            lemma_bytes_lt_step(a@, b@, i as int);
            lemma_bytes_lt_step(b@, a@, i as int);
        }
        i = i + 1;
    }
    proof {
        lemma_bytes_lt_irreflexive(a@);
    }
    if a.len() == b.len() {
        assert(a@ =~= b@);
        Precedence::Same
    } else if a.len() < b.len() {
        proof {
            lemma_bytes_lt_asymmetric(a@, b@);
        }
        Precedence::Before
    } else {
        proof {
            lemma_bytes_lt_asymmetric(b@, a@);
        }
        Precedence::After
    }
}

fn kind_index(k: PartKind) -> (r: u8)
    ensures
        r as int == kind_rank(k),
{
    match k {
        PartKind::Verbatim => 0,
        PartKind::VerbatimUnc => 1,
        PartKind::VerbatimDisk => 2,
        PartKind::DeviceNs => 3,
        PartKind::Unc => 4,
        PartKind::Disk => 5,
        PartKind::RootDir => 6,
        PartKind::CurDir => 7,
        PartKind::ParentDir => 8,
        PartKind::Normal => 9,
    }
}

/// Compares two components in std's component order.
pub fn compare_parts(x: &PathPart, y: &PathPart) -> (r: Precedence)
    ensures
        (r == Precedence::Before) == part_lt(x@, y@),
        (r == Precedence::Same) == (x@ == y@),
        (r == Precedence::After) == part_lt(y@, x@),
{
    proof {
        lemma_part_lt_irreflexive(x@);
        lemma_part_lt_total(x@, y@);
        lemma_bytes_lt_irreflexive(x.first@);
        lemma_bytes_lt_irreflexive(x.second@);
    }
    let kx = kind_index(x.kind);
    let ky = kind_index(y.kind);
    if kx < ky {
        return Precedence::Before;
    }
    if kx > ky {
        return Precedence::After;
    }
    match compare_bytes(x.first.as_slice(), y.first.as_slice()) {
        Precedence::Before => {
            proof { lemma_bytes_lt_asymmetric(x.first@, y.first@); }
            Precedence::Before
        },
        Precedence::After => {
            proof { lemma_bytes_lt_asymmetric(y.first@, x.first@); }
            Precedence::After
        },
        Precedence::Same => {
            let r = compare_bytes(x.second.as_slice(), y.second.as_slice());
            proof {
                if r == Precedence::Before {
                    lemma_bytes_lt_asymmetric(x.second@, y.second@);
                }
                if r == Precedence::After {
                    lemma_bytes_lt_asymmetric(y.second@, x.second@);
                }
            }
            r
        },
    }
}

proof fn lemma_parts_lt_step(a: Seq<PartKey>, b: Seq<PartKey>, i: int)
    requires
        0 <= i < a.len(),
        i < b.len(),
        a[i] == b[i],
    ensures
        parts_lt(a.skip(i), b.skip(i)) == parts_lt(a.skip(i + 1), b.skip(i + 1)),
{
    assert(a.skip(i).drop_first() =~= a.skip(i + 1));
    assert(b.skip(i).drop_first() =~= b.skip(i + 1));
}

/// Compares two paths in std's path order.
pub fn compare_paths(a: &FilePath, b: &FilePath) -> (r: Precedence)
    ensures
        (r == Precedence::Before) == parts_lt(a@, b@),
        (r == Precedence::Same) == (a@ == b@),
        (r == Precedence::After) == parts_lt(b@, a@),
{
    let ghost sa = a@;
    let ghost sb = b@;
    let mut i: usize = 0;
    assert(sa.skip(0) =~= sa);
    assert(sb.skip(0) =~= sb);
    while i < a.parts.len() && i < b.parts.len()
        invariant
            sa == a@,
            sb == b@,
            sa.len() == a.parts@.len(),
            sb.len() == b.parts@.len(),
            i <= sa.len(),
            i <= sb.len(),
            forall|k: int| 0 <= k < i ==> sa[k] == sb[k],
            parts_lt(sa, sb) == parts_lt(sa.skip(i as int), sb.skip(i as int)),
            parts_lt(sb, sa) == parts_lt(sb.skip(i as int), sa.skip(i as int)),
        decreases sa.len() - i,
    {
        let c = compare_parts(&a.parts[i], &b.parts[i]);
        assert(sa[i as int] == a.parts@[i as int]@);
        assert(sb[i as int] == b.parts@[i as int]@);
        if c != Precedence::Same {
            proof {
                lemma_parts_lt_total(sa, sb);
                lemma_parts_lt_irreflexive(sa);
                assert(sa.skip(i as int)[0] == sa[i as int]);
                assert(sb.skip(i as int)[0] == sb[i as int]);
                if sa == sb {
                    assert(sa[i as int] == sb[i as int]);
                }
            }
            if c == Precedence::Before {
                proof { lemma_parts_lt_asymmetric(sa, sb); }
                return Precedence::Before;
            } else {
                proof { lemma_parts_lt_asymmetric(sb, sa); }
                return Precedence::After;
            }
        }
        proof {
            lemma_parts_lt_step(sa, sb, i as int);
            lemma_parts_lt_step(sb, sa, i as int);
        }
        i = i + 1;
    }
    proof {
        lemma_parts_lt_irreflexive(sa);
    }
    if a.parts.len() == b.parts.len() {
        assert(sa =~= sb);
        Precedence::Same
    } else if a.parts.len() < b.parts.len() {
        proof {
            assert(sa.skip(i as int).len() == 0);
            lemma_parts_lt_asymmetric(sa, sb);
        }
        Precedence::Before
    } else {
        proof {
            assert(sb.skip(i as int).len() == 0);
            lemma_parts_lt_asymmetric(sb, sa);
        }
        Precedence::After
    }
}

/// std's `Path::starts_with`.
pub fn starts_with(path: &FilePath, base: &FilePath) -> (r: bool)
    ensures
        r == path_starts_with(path@, base@),
{
    if base.parts.len() > path.parts.len() {
        return false;
    }
    let mut i: usize = 0;
    while i < base.parts.len()
        invariant
            base.parts@.len() <= path.parts@.len(),
            i <= base.parts@.len(),
            forall|k: int| 0 <= k < i ==> path@[k] == base@[k],
        decreases base.parts@.len() - i,
    {
        if compare_parts(&path.parts[i], &base.parts[i]) != Precedence::Same {
            assert(path@[i as int] != base@[i as int]);
            assert(path@.take(base@.len() as int)[i as int] == path@[i as int]);
            return false;
        }
        i = i + 1;
    }
    assert(path@.take(base@.len() as int) =~= base@);
    true
}

/// Whether two paths have the same components (std's `Path` equality).
pub fn same_path(a: &FilePath, b: &FilePath) -> (r: bool)
    ensures
        r == (a@ == b@),
{
    compare_paths(a, b) == Precedence::Same
}

fn copy_bytes(v: &Vec<u8>) -> (r: Vec<u8>)
    ensures
        r@ == v@,
{
    let mut r: Vec<u8> = Vec::new();
    let mut i: usize = 0;
    while i < v.len()
        invariant
            i <= v@.len(),
            r@ == v@.take(i as int),
        decreases v@.len() - i,
    {
        r.push(v[i]);
        i = i + 1;
        assert(r@ =~= v@.take(i as int));
    }
    assert(v@.take(v@.len() as int) =~= v@);
    r
}

/// std's `Path::file_name`, as bytes.
pub fn file_name(path: &FilePath) -> (r: Option<Vec<u8>>)
    ensures
        r matches Some(n) ==> file_name_of(path@) == Some(n@),
        r is None ==> file_name_of(path@) is None,
{
    let n = path.parts.len();
    if n == 0 {
        return None;
    }
    let last = &path.parts[n - 1];
    assert(path@.last() == last@);
    match last.kind {
        PartKind::Normal => Some(copy_bytes(&last.first)),
        _ => None,
    }
}

/// The index of the last `b` in `s`, if any.
pub fn find_last(s: &Vec<u8>, b: u8) -> (r: Option<usize>)
    ensures
        r matches Some(i) ==> i as int == last_index_of(s@, b) && i < s@.len(),
        r is None ==> last_index_of(s@, b) == -1,
{
    let mut i: usize = s.len();
    assert(s@.take(s@.len() as int) =~= s@);
    while i > 0
        invariant
            i <= s@.len(),
            last_index_of(s@, b) == last_index_of(s@.take(i as int), b),
        decreases i,
    {
        assert(s@.take(i as int).drop_last() =~= s@.take(i - 1));
        if s[i - 1] == b {
            return Some(i - 1);
        }
        i = i - 1;
    }
    None
}

fn bytes_range(s: &Vec<u8>, from: usize, to: usize) -> (r: Vec<u8>)
    requires
        from <= to <= s@.len(),
    ensures
        r@ == s@.subrange(from as int, to as int),
{
    let mut r: Vec<u8> = Vec::new();
    let mut i: usize = from;
    while i < to
        invariant
            from <= i <= to,
            to <= s@.len(),
            r@ == s@.subrange(from as int, i as int),
        decreases to - i,
    {
        r.push(s[i]);
        i = i + 1;
        assert(r@ =~= s@.subrange(from as int, i as int));
    }
    r
}

fn is_parent(name: &Vec<u8>) -> (r: bool)
    ensures
        r == is_parent_name(name@),
{
    let r = name.len() == 2 && name[0] == 46u8 && name[1] == 46u8;
    if r {
        assert(name@ =~= seq![dot(), dot()]);
    }
    r
}

/// The extension of a file name, split as std splits it.
pub fn extension_of_name(name: &Vec<u8>) -> (r: Option<Vec<u8>>)
    ensures
        r matches Some(e) ==> name_extension(name@) == Some(e@),
        r is None ==> name_extension(name@) is None,
{
    if is_parent(name) {
        return None;
    }
    match find_last(name, 46u8) {
        Some(p) => {
            if p == 0 {
                None
            } else {
                let n = name.len();
                Some(bytes_range(name, p + 1, n))
            }
        },
        None => None,
    }
}

/// The stem of a file name, split as std splits it.
pub fn stem_of_name(name: &Vec<u8>) -> (r: Vec<u8>)
    ensures
        r@ == name_stem(name@),
{
    if is_parent(name) {
        return copy_bytes(name);
    }
    match find_last(name, 46u8) {
        Some(p) => {
            if p == 0 {
                copy_bytes(name)
            } else {
                bytes_range(name, 0, p)
            }
        },
        None => copy_bytes(name),
    }
}

/// std's `Path::extension`, as bytes.
pub fn extension(path: &FilePath) -> (r: Option<Vec<u8>>)
    ensures
        r matches Some(e) ==> extension_of(path@) == Some(e@),
        r is None ==> extension_of(path@) is None,
{
    match file_name(path) {
        Some(name) => extension_of_name(&name),
        None => None,
    }
}

/// A path whose parts agree with one another as std's conversions make
/// them: each component whose bytes are valid UTF-8 is shown as their
/// decoding.
pub open spec fn consistent(path: FilePath) -> bool {
    forall|i: int|
        #![trigger path.parts@[i]]
        0 <= i < path.parts@.len() && vstd::utf8::valid_utf8(path.parts@[i].first@) ==> path.parts@[i].shown@
            == vstd::utf8::decode_utf8(path.parts@[i].first@)
}

/// `name` is how a file is shown: its file name as std shows it, or else
/// the whole path text.
pub open spec fn shows_name(path: FilePath, name: Seq<char>) -> bool {
    if file_name_of(path@) is Some {
        name == path.parts@.last().shown@
    } else {
        name == path.text@
    }
}

/// Of a consistent path whose file name is valid UTF-8, the name shown is
/// that name decoded.
pub proof fn lemma_shown_name_decodes(path: FilePath, name: Seq<char>)
    requires
        consistent(path),
        shows_name(path, name),
        file_name_of(path@) matches Some(n) && vstd::utf8::valid_utf8(n),
    ensures
        name == vstd::utf8::decode_utf8(file_name_of(path@)->0),
{
    let i = path.parts@.len() - 1;
    assert(path@[i] == path.parts@[i]@);
}

/// The name under which a file is shown: its file name, or else the whole
/// path text.
pub fn display_name(path: &FilePath) -> (r: String)
    ensures
        shows_name(*path, r@),
{
    let n = path.parts.len();
    if n > 0 {
        let last = &path.parts[n - 1];
        assert(path@.last() == last@);
        match last.kind {
            PartKind::Normal => return last.shown.clone(),
            _ => {},
        }
    }
    crate::text::owned(path.text.as_str())
}

} // verus!
