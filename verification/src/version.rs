//! Semantic versions and version ranges: the version model, its total
//! order (build metadata ignored, pre-releases below releases), range
//! satisfaction, parsing and canonical rendering.

use vstd::prelude::*;
use crate::text::{
    lex_lt, lemma_lex_lt_trichotomy, lemma_lex_lt_trans, str_chars, chars_to_string,
    chars_lt, chars_eq, push_u64, dec_rep,
};

verus! {

/// A semantic version: numeric triple, pre-release identifiers and build
/// metadata. The order on versions ignores `build`; equality includes it.
#[derive(Debug, PartialEq, Eq)]
pub struct Version {
    pub major: u64,
    pub minor: u64,
    pub patch: u64,
    pub pre: Vec<String>,
    pub build: String,
}

/// The mathematical content of a [`Version`].
pub struct VersionView {
    pub major: u64,
    pub minor: u64,
    pub patch: u64,
    pub pre: Seq<Seq<char>>,
    pub build: Seq<char>,
}

impl View for Version {
    type V = VersionView;

    open spec fn view(&self) -> VersionView {
        VersionView {
            major: self.major,
            minor: self.minor,
            patch: self.patch,
            pre: self.pre.deep_view(),
            build: self.build@,
        }
    }
}

impl DeepView for Version {
    type V = VersionView;

    open spec fn deep_view(&self) -> VersionView {
        self.view()
    }
}

impl Version {
    /// A release version `major.minor.patch` with no pre-release and no
    /// build metadata.
    pub fn new(major: u64, minor: u64, patch: u64) -> (r: Version)
        ensures
            r@.major == major,
            r@.minor == minor,
            r@.patch == patch,
            r@.pre.len() == 0,
            r@.build.len() == 0,
    {
        let r = Version { major, minor, patch, pre: Vec::new(), build: String::new() };
        proof {
            assert(r@.pre =~= Seq::<Seq<char>>::empty());
        }
        r
    }
}

/// Whether a pre-release identifier is numeric (digits only, non-empty).
pub open spec fn ident_is_num(s: Seq<char>) -> bool {
    s.len() > 0 && forall|i: int| 0 <= i < s.len() ==> '0' <= #[trigger] s[i] && s[i] <= '9'
}

/// Order on numeric identifiers: shorter before longer, then
/// lexicographic. For identifiers without leading zeros this is the
/// numeric order.
pub open spec fn num_ident_lt(a: Seq<char>, b: Seq<char>) -> bool {
    a.len() < b.len() || (a.len() == b.len() && lex_lt(a, b))
}

/// Order on single pre-release identifiers: numeric identifiers order
/// numerically and come before alphanumeric ones; alphanumeric
/// identifiers order lexicographically.
pub open spec fn ident_lt(a: Seq<char>, b: Seq<char>) -> bool {
    if ident_is_num(a) && ident_is_num(b) {
        num_ident_lt(a, b)
    } else if ident_is_num(a) {
        !ident_is_num(b)
    } else if ident_is_num(b) {
        false
    } else {
        lex_lt(a, b)
    }
}

/// Order on two non-empty pre-release identifier lists: identifier by
/// identifier, a strict prefix coming first.
pub open spec fn pre_list_lt(a: Seq<Seq<char>>, b: Seq<Seq<char>>) -> bool
    decreases a.len(),
{
    if a.len() == 0 {
        b.len() > 0
    } else if b.len() == 0 {
        false
    } else if a[0] == b[0] {
        pre_list_lt(a.subrange(1, a.len() as int), b.subrange(1, b.len() as int))
    } else {
        ident_lt(a[0], b[0])
    }
}

/// Order on pre-release lists: a release (empty list) ranks above every
/// pre-release.
pub open spec fn pre_lt(a: Seq<Seq<char>>, b: Seq<Seq<char>>) -> bool {
    if b.len() == 0 {
        false
    } else if a.len() == 0 {
        false
    } else {
        pre_list_lt(a, b)
    }
}

/// Strict order on versions: by the numeric triple, then by pre-release,
/// with a pre-release below the corresponding release. Build metadata is
/// ignored.
pub open spec fn version_lt(a: VersionView, b: VersionView) -> bool {
    if a.major != b.major {
        a.major < b.major
    } else if a.minor != b.minor {
        a.minor < b.minor
    } else if a.patch != b.patch {
        a.patch < b.patch
    } else if a.pre.len() > 0 && b.pre.len() == 0 {
        true
    } else {
        pre_lt(a.pre, b.pre)
    }
}

/// Order-equivalence on versions: equal triple and pre-release list
/// (build metadata may differ).
pub open spec fn version_order_eq(a: VersionView, b: VersionView) -> bool {
    a.major == b.major && a.minor == b.minor && a.patch == b.patch && a.pre == b.pre
}

/// Exactly one of `ident_lt(a, b)`, `a == b`, `ident_lt(b, a)` holds.
proof fn lemma_ident_lt_trichotomy(a: Seq<char>, b: Seq<char>)
    ensures
        a == b ==> !ident_lt(a, b) && !ident_lt(b, a),
        a != b ==> (ident_lt(a, b) <==> !ident_lt(b, a)),
{
    lemma_lex_lt_trichotomy(a, b);
}

/// `ident_lt` is transitive.
proof fn lemma_ident_lt_trans(a: Seq<char>, b: Seq<char>, c: Seq<char>)
    requires
        ident_lt(a, b),
        ident_lt(b, c),
    ensures
        ident_lt(a, c),
{
    if ident_is_num(a) && ident_is_num(b) && ident_is_num(c) {
        if a.len() == b.len() && b.len() == c.len() {
            lemma_lex_lt_trans(a, b, c);
        }
    } else if !ident_is_num(a) && !ident_is_num(b) && !ident_is_num(c) {
        lemma_lex_lt_trans(a, b, c);
    }
}

/// Exactly one of `pre_list_lt(a, b)`, `a == b`, `pre_list_lt(b, a)` holds.
proof fn lemma_pre_list_lt_trichotomy(a: Seq<Seq<char>>, b: Seq<Seq<char>>)
    ensures
        a == b ==> !pre_list_lt(a, b) && !pre_list_lt(b, a),
        a != b ==> (pre_list_lt(a, b) <==> !pre_list_lt(b, a)),
    decreases a.len(),
{
    if a.len() == 0 && b.len() == 0 {
        assert(a =~= b);
    } else if a.len() == 0 || b.len() == 0 {
        assert(a != b);
    } else if a[0] == b[0] {
        let a1 = a.subrange(1, a.len() as int);
        let b1 = b.subrange(1, b.len() as int);
        lemma_pre_list_lt_trichotomy(a1, b1);
        if a1 == b1 {
            assert forall|i: int| 0 <= i < a.len() implies a[i] == b[i] by {
                if i > 0 {
                    assert(a[i] == a1[i - 1]);
                    assert(b[i] == b1[i - 1]);
                }
            }
            assert(a =~= b);
        } else {
            assert(a != b);
        }
    } else {
        assert(a != b);
        lemma_ident_lt_trichotomy(a[0], b[0]);
    }
}

/// `pre_list_lt` is transitive.
proof fn lemma_pre_list_lt_trans(a: Seq<Seq<char>>, b: Seq<Seq<char>>, c: Seq<Seq<char>>)
    requires
        pre_list_lt(a, b),
        pre_list_lt(b, c),
    ensures
        pre_list_lt(a, c),
    decreases a.len() + b.len() + c.len(),
{
    if a.len() == 0 {
    } else if b.len() == 0 || c.len() == 0 {
    } else {
        let a1 = a.subrange(1, a.len() as int);
        let b1 = b.subrange(1, b.len() as int);
        let c1 = c.subrange(1, c.len() as int);
        if a[0] == b[0] && b[0] == c[0] {
            lemma_pre_list_lt_trans(a1, b1, c1);
        } else if a[0] == b[0] {
            // b[0] != c[0]: ident_lt(b[0], c[0]) and a[0] == b[0]
            assert(ident_lt(a[0], c[0]));
        } else if b[0] == c[0] {
            assert(ident_lt(a[0], b[0]));
            assert(ident_lt(a[0], c[0]));
        } else {
            lemma_ident_lt_trans(a[0], b[0], c[0]);
            lemma_ident_lt_trichotomy(a[0], c[0]);
            if a[0] == c[0] {
                lemma_ident_lt_trichotomy(a[0], b[0]);
                lemma_ident_lt_trans(a[0], b[0], a[0]);
            }
        }
    }
}

/// Exactly one of `version_lt(a, b)`, order-equivalence, `version_lt(b, a)`
/// holds of any two versions.
pub proof fn lemma_version_lt_trichotomy(a: VersionView, b: VersionView)
    ensures
        version_order_eq(a, b) ==> !version_lt(a, b) && !version_lt(b, a),
        !version_order_eq(a, b) ==> (version_lt(a, b) <==> !version_lt(b, a)),
{
    lemma_pre_list_lt_trichotomy(a.pre, b.pre);
}

/// `version_lt` is transitive.
pub proof fn lemma_version_lt_trans(a: VersionView, b: VersionView, c: VersionView)
    requires
        version_lt(a, b),
        version_lt(b, c),
    ensures
        version_lt(a, c),
{
    if a.major == b.major && a.minor == b.minor && a.patch == b.patch && b.major == c.major
        && b.minor == c.minor && b.patch == c.patch && a.pre.len() > 0 && b.pre.len() > 0
        && c.pre.len() > 0 && pre_list_lt(a.pre, b.pre) && pre_list_lt(b.pre, c.pre) {
        lemma_pre_list_lt_trans(a.pre, b.pre, c.pre);
    }
}

/// Whether every character of `v` is a decimal digit and `v` is non-empty.
fn chars_all_digits(v: &Vec<char>) -> (r: bool)
    ensures
        r == ident_is_num(v@),
{
    if v.len() == 0 {
        return false;
    }
    let mut i: usize = 0;
    while i < v.len()
        invariant
            i <= v.len(),
            forall|j: int| 0 <= j < i ==> '0' <= #[trigger] v@[j] && v@[j] <= '9',
        decreases v.len() - i,
    {
        let c = v[i];
        if !(('0' <= c) && (c <= '9')) {
            return false;
        }
        i = i + 1;
    }
    true
}

/// Whether identifier `a` comes strictly before identifier `b`.
fn ident_lt_exec(a: &Vec<char>, b: &Vec<char>) -> (r: bool)
    ensures
        r == ident_lt(a@, b@),
{
    let na = chars_all_digits(a);
    let nb = chars_all_digits(b);
    if na && nb {
        if a.len() != b.len() {
            a.len() < b.len()
        } else {
            chars_lt(a, b)
        }
    } else if na {
        true
    } else if nb {
        false
    } else {
        chars_lt(a, b)
    }
}

/// Whether version `a` comes strictly before version `b` in the version
/// order (build metadata ignored).
pub fn version_lt_exec(a: &Version, b: &Version) -> (r: bool)
    ensures
        r == version_lt(a@, b@),
{
    if a.major != b.major {
        return a.major < b.major;
    }
    if a.minor != b.minor {
        return a.minor < b.minor;
    }
    if a.patch != b.patch {
        return a.patch < b.patch;
    }
    if b.pre.len() == 0 {
        return a.pre.len() > 0;
    }
    if a.pre.len() == 0 {
        return false;
    }
    pre_list_lt_exec(&a.pre, &b.pre)
}

/// Whether pre-release list `a` comes strictly before `b`, identifier by
/// identifier.
fn pre_list_lt_exec(a: &Vec<String>, b: &Vec<String>) -> (r: bool)
    ensures
        r == pre_list_lt(a.deep_view(), b.deep_view()),
{
    let mut i: usize = 0;
    proof {
        assert(a.deep_view().subrange(0, a.deep_view().len() as int) =~= a.deep_view());
        assert(b.deep_view().subrange(0, b.deep_view().len() as int) =~= b.deep_view());
    }
    loop
        invariant
            i <= a.len(),
            i <= b.len(),
            a.deep_view().subrange(0, i as int) == b.deep_view().subrange(0, i as int),
            pre_list_lt(a.deep_view(), b.deep_view()) == pre_list_lt(
                a.deep_view().subrange(i as int, a.deep_view().len() as int),
                b.deep_view().subrange(i as int, b.deep_view().len() as int),
            ),
        decreases a.len() - i,
    {
        let ghost av = a.deep_view();
        let ghost bv = b.deep_view();
        if i >= a.len() {
            return i < b.len();
        }
        if i >= b.len() {
            return false;
        }
        let ia = str_chars(a[i].as_str());
        let ib = str_chars(b[i].as_str());
        proof {
            assert(av.subrange(i as int, av.len() as int)[0] == av[i as int]);
            assert(bv.subrange(i as int, bv.len() as int)[0] == bv[i as int]);
            assert(av[i as int] == ia@);
            assert(bv[i as int] == ib@);
        }
        if !chars_eq(&ia, &ib) {
            return ident_lt_exec(&ia, &ib);
        }
        proof {
            let ar = av.subrange(i as int, av.len() as int);
            let br = bv.subrange(i as int, bv.len() as int);
            assert(ar.subrange(1, ar.len() as int) =~= av.subrange(i + 1, av.len() as int));
            assert(br.subrange(1, br.len() as int) =~= bv.subrange(i + 1, bv.len() as int));
            assert(av.subrange(0, i + 1) =~= bv.subrange(0, i + 1));
        }
        i = i + 1;
    }
}

/// Whether two versions are equal in every field, build metadata included.
pub fn version_eq_exec(a: &Version, b: &Version) -> (r: bool)
    ensures
        r == (a@ == b@),
{
    if a.major != b.major || a.minor != b.minor || a.patch != b.patch {
        proof {
            assert(a@ != b@);
        }
        return false;
    }
    let ba = str_chars(a.build.as_str());
    let bb = str_chars(b.build.as_str());
    if !chars_eq(&ba, &bb) {
        proof {
            assert(a@.build != b@.build);
        }
        return false;
    }
    if a.pre.len() != b.pre.len() {
        proof {
            assert(a@.pre.len() != b@.pre.len());
        }
        return false;
    }
    let mut i: usize = 0;
    while i < a.pre.len()
        invariant
            a.pre.len() == b.pre.len(),
            i <= a.pre.len(),
            a@.major == b@.major && a@.minor == b@.minor && a@.patch == b@.patch,
            a@.build == b@.build,
            forall|j: int| 0 <= j < i ==> a.deep_spec_pre()[j] == b.deep_spec_pre()[j],
        decreases a.pre.len() - i,
    {
        let pa = str_chars(a.pre[i].as_str());
        let pb = str_chars(b.pre[i].as_str());
        if !chars_eq(&pa, &pb) {
            proof {
                assert(a@.pre[i as int] != b@.pre[i as int]);
            }
            return false;
        }
        i = i + 1;
    }
    proof {
        assert(a@.pre.len() == b@.pre.len());
        assert forall|j: int| 0 <= j < a@.pre.len() implies a@.pre[j] == b@.pre[j] by {
            assert(a.deep_spec_pre()[j] == b.deep_spec_pre()[j]);
        }
        assert(a@.pre =~= b@.pre);
        assert(a@ =~= b@);
    }
    true
}

impl Version {
    /// The pre-release identifier list as a sequence of character
    /// sequences.
    pub open spec fn deep_spec_pre(&self) -> Seq<Seq<char>> {
        self.pre.deep_view()
    }
}

/// The canonical rendering of a version:
/// `major.minor.patch[-pre][+build]`.
pub open spec fn version_rep(v: VersionView) -> Seq<char> {
    dec_rep(v.major as nat) + seq!['.'] + dec_rep(v.minor as nat) + seq!['.']
        + dec_rep(v.patch as nat) + (if v.pre.len() > 0 {
        seq!['-'] + join_idents(v.pre)
    } else {
        Seq::<char>::empty()
    }) + (if v.build.len() > 0 {
        seq!['+'] + v.build
    } else {
        Seq::<char>::empty()
    })
}

/// Pre-release identifiers joined with `.`.
pub open spec fn join_idents(parts: Seq<Seq<char>>) -> Seq<char>
    decreases parts.len(),
{
    if parts.len() == 0 {
        Seq::<char>::empty()
    } else if parts.len() == 1 {
        parts[0]
    } else {
        parts[0] + seq!['.'] + join_idents(parts.subrange(1, parts.len() as int))
    }
}

/// Appends the canonical rendering of `v` to `out`.
pub fn push_version(out: &mut Vec<char>, v: &Version)
    ensures
        final(out)@ == old(out)@ + version_rep(v@),
{
    push_u64(out, v.major);
    out.push('.');
    push_u64(out, v.minor);
    out.push('.');
    push_u64(out, v.patch);
    if v.pre.len() > 0 {
        out.push('-');
        let mut i: usize = 0;
        let ghost base = out@;
        while i < v.pre.len()
            invariant
                0 < v.pre.len(),
                i <= v.pre.len(),
                i > 0 ==> out@ == base + join_idents(v.deep_spec_pre().subrange(0, i as int)),
                i == 0 ==> out@ == base,
            decreases v.pre.len() - i,
        {
            if i > 0 {
                out.push('.');
            }
            crate::text::push_str_chars(out, v.pre[i].as_str());
            i = i + 1;
            proof {
                lemma_join_idents_snoc(v.deep_spec_pre().subrange(0, i as int));
                assert(v.deep_spec_pre().subrange(0, i as int).subrange(0, i - 1) =~= v
                    .deep_spec_pre()
                    .subrange(0, i - 1));
            }
        }
        proof {
            assert(v.deep_spec_pre().subrange(0, v.pre.len() as int) =~= v.deep_spec_pre());
        }
    }
    if v.build.as_str().unicode_len() > 0 {
        out.push('+');
        crate::text::push_str_chars(out, v.build.as_str());
    }
    proof {
        assert(out@ =~= old(out)@ + version_rep(v@));
    }
}

/// Splitting off the last identifier of a non-empty list distributes over
/// joining.
proof fn lemma_join_idents_snoc(parts: Seq<Seq<char>>)
    requires
        parts.len() > 0,
    ensures
        parts.len() == 1 ==> join_idents(parts) == parts[0],
        parts.len() > 1 ==> join_idents(parts) == join_idents(
            parts.subrange(0, parts.len() - 1),
        ) + seq!['.'] + parts[parts.len() - 1],
    decreases parts.len(),
{
    if parts.len() > 1 {
        let tail = parts.subrange(1, parts.len() as int);
        lemma_join_idents_snoc(tail);
        assert(tail.subrange(0, tail.len() - 1) =~= parts.subrange(1, parts.len() - 1));
        if parts.len() == 2 {
            assert(join_idents(parts.subrange(0, 1)) == parts[0]);
        } else {
            let front = parts.subrange(0, parts.len() - 1);
            assert(front[0] == parts[0]);
            assert(front.subrange(1, front.len() as int) =~= parts.subrange(
                1,
                parts.len() - 1,
            ));
            assert(join_idents(parts) =~= join_idents(front) + seq!['.']
                + parts[parts.len() - 1]);
        }
    }
}

/// The canonical rendering of a version as a string.
pub fn version_to_string(v: &Version) -> (r: String)
    ensures
        r@ == version_rep(v@),
{
    let mut out: Vec<char> = Vec::new();
    push_version(&mut out, v);
    chars_to_string(&out)
}

} // verus!
// The module continues inside a fresh `verus!` block: parsing.

use crate::text::{find_first, find_char, vec_slice, split_char, split_chars};

verus! {

/// Error of the version and range parsers: the input does not follow the
/// grammar.
#[derive(Debug, Clone, PartialEq, Eq)]
pub struct ParseError;

/// Whether `c` is a decimal digit.
pub open spec fn is_digit(c: char) -> bool {
    '0' <= c && c <= '9'
}

/// The numeric value of a digit character.
pub open spec fn digit_val(c: char) -> int {
    c as u32 - '0' as u32
}

/// The value of a digit string, read in base ten (non-digits count as 0).
pub open spec fn num_value(s: Seq<char>) -> nat
    decreases s.len(),
{
    if s.len() == 0 {
        0
    } else {
        (num_value(s.drop_last()) * 10 + if is_digit(s.last()) {
            digit_val(s.last())
        } else {
            0
        }) as nat
    }
}

/// The value of a prefix never exceeds the value of the whole string.
proof fn lemma_num_value_prefix(s: Seq<char>, j: int)
    requires
        0 <= j <= s.len(),
    ensures
        num_value(s.subrange(0, j)) <= num_value(s),
    decreases s.len(),
{
    if j < s.len() {
        let d = s.drop_last();
        assert(s.subrange(0, j) =~= d.subrange(0, j));
        lemma_num_value_prefix(d, j);
        assert(num_value(d) * 10 >= num_value(d));
    } else {
        assert(s.subrange(0, j) =~= s);
    }
}

/// A numeric component: digits only, without a leading zero.
pub open spec fn valid_num(s: Seq<char>) -> bool {
    ident_is_num(s) && (s.len() > 1 ==> s[0] != '0')
}

/// Whether `c` may appear in a pre-release or build identifier.
pub open spec fn is_ident_char(c: char) -> bool {
    is_digit(c) || ('a' <= c && c <= 'z') || ('A' <= c && c <= 'Z') || c == '-'
}

/// A pre-release identifier: non-empty, identifier characters only, and
/// no leading zero if numeric.
pub open spec fn valid_pre_ident(s: Seq<char>) -> bool {
    &&& s.len() > 0
    &&& forall|i: int| 0 <= i < s.len() ==> is_ident_char(#[trigger] s[i])
    &&& ident_is_num(s) ==> (s.len() == 1 || s[0] != '0')
}

/// A build identifier: non-empty, identifier characters only.
pub open spec fn valid_build_ident(s: Seq<char>) -> bool {
    s.len() > 0 && forall|i: int| 0 <= i < s.len() ==> is_ident_char(#[trigger] s[i])
}

/// Every piece is a valid pre-release identifier.
pub open spec fn all_valid_pre(parts: Seq<Seq<char>>) -> bool {
    forall|i: int| 0 <= i < parts.len() ==> valid_pre_ident(#[trigger] parts[i])
}

/// Every piece is a valid build identifier.
pub open spec fn all_valid_build(parts: Seq<Seq<char>>) -> bool {
    forall|i: int| 0 <= i < parts.len() ==> valid_build_ident(#[trigger] parts[i])
}

/// The version grammar: `major.minor.patch`, three numeric components
/// within `u64`, then an optional `-` pre-release (dot-separated
/// identifiers) and an optional `+` build part (the first `+` starts the
/// build part; the first `-` before it starts the pre-release part).
pub open spec fn spec_parse_version(s: Seq<char>) -> Option<VersionView> {
    let kplus = find_first(s, '+');
    let core_pre = if kplus >= 0 { s.subrange(0, kplus) } else { s };
    let build = if kplus >= 0 { s.subrange(kplus + 1, s.len() as int) } else { Seq::<char>::empty() };
    let kdash = find_first(core_pre, '-');
    let core = if kdash >= 0 { core_pre.subrange(0, kdash) } else { core_pre };
    let prestr = if kdash >= 0 {
        core_pre.subrange(kdash + 1, core_pre.len() as int)
    } else {
        Seq::<char>::empty()
    };
    let parts = split_char(core, '.');
    let prelist = split_char(prestr, '.');
    if parts.len() == 3 && valid_num(parts[0]) && num_value(parts[0]) <= u64::MAX && valid_num(
        parts[1],
    ) && num_value(parts[1]) <= u64::MAX && valid_num(parts[2]) && num_value(parts[2])
        <= u64::MAX && (kdash < 0 || all_valid_pre(prelist)) && (kplus < 0 || all_valid_build(
        split_char(build, '.'),
    )) {
        Some(
            VersionView {
                major: num_value(parts[0]) as u64,
                minor: num_value(parts[1]) as u64,
                patch: num_value(parts[2]) as u64,
                pre: if kdash >= 0 { prelist } else { Seq::<Seq<char>>::empty() },
                build: build,
            },
        )
    } else {
        None
    }
}

/// Reads a `u64` from a digit string.
pub fn parse_u64(v: &Vec<char>) -> (r: Option<u64>)
    ensures
        r.is_some() <==> ident_is_num(v@) && num_value(v@) <= u64::MAX,
        r.is_some() ==> r.unwrap() as nat == num_value(v@),
{
    if v.len() == 0 {
        return None;
    }
    let mut acc: u64 = 0;
    let mut i: usize = 0;
    while i < v.len()
        invariant
            i <= v.len(),
            v@.len() > 0,
            forall|j: int| 0 <= j < i ==> is_digit(#[trigger] v@[j]),
            acc as nat == num_value(v@.subrange(0, i as int)),
        decreases v.len() - i,
    {
        let c = v[i];
        if !('0' <= c && c <= '9') {
            return None;
        }
        let d: u64 = ((c as u32) - ('0' as u32)) as u64;
        proof {
            assert(v@.subrange(0, i + 1).drop_last() =~= v@.subrange(0, i as int));
            assert(v@.subrange(0, i + 1).last() == v@[i as int]);
        }
        let next = match acc.checked_mul(10) {
            Some(m) => m.checked_add(d),
            None => None,
        };
        match next {
            Some(n) => {
                acc = n;
            },
            None => {
                proof {
                    assert(num_value(v@.subrange(0, i + 1)) > u64::MAX);
                    lemma_num_value_prefix(v@, i + 1);
                }
                return None;
            },
        }
        i = i + 1;
    }
    proof {
        assert(v@.subrange(0, v@.len() as int) =~= v@);
    }
    Some(acc)
}

/// Whether every character of `v` is an identifier character and `v` is
/// non-empty.
fn chars_all_ident(v: &Vec<char>) -> (r: bool)
    ensures
        r == (v@.len() > 0 && forall|i: int| 0 <= i < v@.len() ==> is_ident_char(#[trigger] v@[i])),
{
    if v.len() == 0 {
        return false;
    }
    let mut i: usize = 0;
    while i < v.len()
        invariant
            i <= v.len(),
            forall|j: int| 0 <= j < i ==> is_ident_char(#[trigger] v@[j]),
        decreases v.len() - i,
    {
        let c = v[i];
        if !(('0' <= c && c <= '9') || ('a' <= c && c <= 'z') || ('A' <= c && c <= 'Z') || c
            == '-') {
            return false;
        }
        i = i + 1;
    }
    true
}

/// Whether `v` is a valid pre-release identifier.
fn check_pre_ident(v: &Vec<char>) -> (r: bool)
    ensures
        r == valid_pre_ident(v@),
{
    if !chars_all_ident(v) {
        return false;
    }
    if chars_all_digits(v) {
        if v.len() > 1 {
            let c0 = v[0];
            if c0 == '0' {
                return false;
            }
        }
    }
    true
}

/// Whether every piece of `parts` is a valid pre-release identifier.
fn check_all_pre(parts: &Vec<Vec<char>>) -> (r: bool)
    ensures
        r == all_valid_pre(parts.deep_view()),
{
    let mut i: usize = 0;
    while i < parts.len()
        invariant
            i <= parts.len(),
            forall|j: int| 0 <= j < i ==> valid_pre_ident(#[trigger] parts.deep_view()[j]),
        decreases parts.len() - i,
    {
        if !check_pre_ident(&parts[i]) {
            proof {
                assert(parts.deep_view()[i as int] == parts@[i as int]@);
            }
            return false;
        }
        proof {
            assert(parts.deep_view()[i as int] == parts@[i as int]@);
        }
        i = i + 1;
    }
    true
}

/// Whether every piece of `parts` is a valid build identifier.
fn check_all_build(parts: &Vec<Vec<char>>) -> (r: bool)
    ensures
        r == all_valid_build(parts.deep_view()),
{
    let mut i: usize = 0;
    while i < parts.len()
        invariant
            i <= parts.len(),
            forall|j: int| 0 <= j < i ==> valid_build_ident(#[trigger] parts.deep_view()[j]),
        decreases parts.len() - i,
    {
        if !chars_all_ident(&parts[i]) {
            proof {
                assert(parts.deep_view()[i as int] == parts@[i as int]@);
            }
            return false;
        }
        proof {
            assert(parts.deep_view()[i as int] == parts@[i as int]@);
        }
        i = i + 1;
    }
    true
}

/// Reads a numeric component, rejecting leading zeros.
fn parse_num_component(v: &Vec<char>) -> (r: Option<u64>)
    ensures
        r.is_some() <==> valid_num(v@) && num_value(v@) <= u64::MAX,
        r.is_some() ==> r.unwrap() as nat == num_value(v@),
{
    if v.len() > 1 {
        let c0 = v[0];
        if c0 == '0' {
            return None;
        }
    }
    parse_u64(v)
}

/// Parses a semantic version. Returns `Err` exactly when the input does
/// not follow the version grammar of [`spec_parse_version`].
pub fn parse_version(s: &str) -> (r: Result<Version, ParseError>)
    ensures
        match r {
            Ok(v) => spec_parse_version(s@) == Some(v@),
            Err(_) => spec_parse_version(s@) is None,
        },
{
    let chars = str_chars(s);
    let (core_pre, build) = match find_char(&chars, '+') {
        Some(k) => {
            proof {
                crate::text::lemma_find_first(chars@, '+');
            }
            let n = chars.len();
            let cp = vec_slice(&chars, 0, k);
            let b = vec_slice(&chars, k + 1, n);
            (cp, Some(b))
        },
        None => (chars, None),
    };
    let (core, prestr) = match find_char(&core_pre, '-') {
        Some(k) => {
            proof {
                crate::text::lemma_find_first(core_pre@, '-');
            }
            let n = core_pre.len();
            let c = vec_slice(&core_pre, 0, k);
            let p = vec_slice(&core_pre, k + 1, n);
            (c, Some(p))
        },
        None => (core_pre, None),
    };
    let parts = split_chars(&core, '.');
    if parts.len() != 3 {
        return Err(ParseError);
    }
    let major = match parse_num_component(&parts[0]) {
        Some(n) => n,
        None => {
            proof {
                assert(parts.deep_view()[0] == parts@[0]@);
            }
            return Err(ParseError);
        },
    };
    proof {
        assert(parts.deep_view()[0] == parts@[0]@);
    }
    let minor = match parse_num_component(&parts[1]) {
        Some(n) => n,
        None => {
            proof {
                assert(parts.deep_view()[1] == parts@[1]@);
            }
            return Err(ParseError);
        },
    };
    proof {
        assert(parts.deep_view()[1] == parts@[1]@);
    }
    let patch = match parse_num_component(&parts[2]) {
        Some(n) => n,
        None => {
            proof {
                assert(parts.deep_view()[2] == parts@[2]@);
            }
            return Err(ParseError);
        },
    };
    proof {
        assert(parts.deep_view()[2] == parts@[2]@);
    }
    let mut pre: Vec<String> = Vec::new();
    if let Some(p) = &prestr {
        let prelist = split_chars(p, '.');
        if !check_all_pre(&prelist) {
            return Err(ParseError);
        }
        let mut i: usize = 0;
        while i < prelist.len()
            invariant
                i <= prelist.len(),
                pre.deep_view() == prelist.deep_view().subrange(0, i as int),
            decreases prelist.len() - i,
        {
            let ghost prevv = pre@;
            let ghost oldpre = pre.deep_view();
            let piece = chars_to_string(&prelist[i]);
            let ghost piecev = piece@;
            pre.push(piece);
            i = i + 1;
            proof {
                assert(piecev == prelist.deep_view()[i - 1]);
                assert(pre@.len() == prevv.len() + 1);
                assert(prevv.len() == oldpre.len());
                assert(oldpre.len() == i - 1);
                assert forall|j: int| 0 <= j < i implies pre.deep_view()[j]
                    == prelist.deep_view()[j] by {
                    if j < i - 1 {
                        assert(pre@[j] == prevv[j]);
                        assert(pre.deep_view()[j] == pre@[j].deep_view());
                        assert(oldpre[j] == prevv[j].deep_view());
                        assert(oldpre[j] == prelist.deep_view().subrange(0, i - 1)[j]);
                    } else {
                        assert(pre@[j]@ == piecev);
                        assert(pre.deep_view()[j] == pre@[j].deep_view());
                    }
                }
                assert(pre.deep_view() =~= prelist.deep_view().subrange(0, i as int));
            }
        }
        proof {
            assert(prelist.deep_view().subrange(0, prelist.deep_view().len() as int)
                =~= prelist.deep_view());
        }
    } else {
        proof {
            assert(pre.deep_view() =~= Seq::<Seq<char>>::empty());
        }
    }
    let build_string = match &build {
        Some(b) => {
            let blist = split_chars(b, '.');
            if !check_all_build(&blist) {
                return Err(ParseError);
            }
            chars_to_string(b)
        },
        None => String::new(),
    };
    let v = Version { major, minor, patch, pre, build: build_string };
    proof {
        assert(spec_parse_version(s@) == Some(v@));
    }
    Ok(v)
}

} // verus!
// The module continues: version ranges and their matching.

verus! {

/// A comparator operator of a version range.
#[derive(Debug, Clone, Copy, PartialEq, Eq)]
pub enum RangeOp {
    Exact,
    Greater,
    GreaterEq,
    Less,
    LessEq,
    Tilde,
    Caret,
    Wildcard,
}

/// One comparator clause of a version range: an operator and a partial
/// version (minor and patch may be absent).
#[derive(Debug, PartialEq, Eq)]
pub struct Comparator {
    pub op: RangeOp,
    pub major: u64,
    pub minor: Option<u64>,
    pub patch: Option<u64>,
    pub pre: Vec<String>,
}

/// The mathematical content of a [`Comparator`].
pub struct ComparatorView {
    pub op: RangeOp,
    pub major: u64,
    pub minor: Option<u64>,
    pub patch: Option<u64>,
    pub pre: Seq<Seq<char>>,
}

impl View for Comparator {
    type V = ComparatorView;

    open spec fn view(&self) -> ComparatorView {
        ComparatorView {
            op: self.op,
            major: self.major,
            minor: self.minor,
            patch: self.patch,
            pre: self.pre.deep_view(),
        }
    }
}

impl DeepView for Comparator {
    type V = ComparatorView;

    open spec fn deep_view(&self) -> ComparatorView {
        self.view()
    }
}

/// A conjunction of comparator clauses. The empty range matches every
/// version.
#[derive(Debug, PartialEq, Eq)]
pub struct VersionRange {
    pub comparators: Vec<Comparator>,
}

impl View for VersionRange {
    type V = Seq<ComparatorView>;

    open spec fn view(&self) -> Seq<ComparatorView> {
        self.comparators.deep_view()
    }
}

/// Rank order on pre-release lists as used between versions of one
/// triple: any pre-release ranks below the plain release.
pub open spec fn pre_rank_lt(a: Seq<Seq<char>>, b: Seq<Seq<char>>) -> bool {
    if a.len() > 0 && b.len() == 0 {
        true
    } else {
        pre_lt(a, b)
    }
}

/// `=`: the stated components and the pre-release list must agree.
pub open spec fn matches_exact(v: VersionView, c: ComparatorView) -> bool {
    &&& v.major == c.major
    &&& match c.minor {
        Some(m) => v.minor == m,
        None => true,
    }
    &&& match c.patch {
        Some(p) => v.patch == p,
        None => true,
    }
    &&& v.pre == c.pre
}

/// `>`: strictly above the stated partial version.
pub open spec fn matches_greater(v: VersionView, c: ComparatorView) -> bool {
    if v.major != c.major {
        v.major > c.major
    } else {
        match c.minor {
            None => false,
            Some(m) => if v.minor != m {
                v.minor > m
            } else {
                match c.patch {
                    None => false,
                    Some(p) => if v.patch != p {
                        v.patch > p
                    } else {
                        pre_rank_lt(c.pre, v.pre)
                    },
                }
            },
        }
    }
}

/// `>=`: at or above the stated partial version.
pub open spec fn matches_greater_eq(v: VersionView, c: ComparatorView) -> bool {
    if v.major != c.major {
        v.major > c.major
    } else {
        match c.minor {
            None => true,
            Some(m) => if v.minor != m {
                v.minor > m
            } else {
                match c.patch {
                    None => true,
                    Some(p) => if v.patch != p {
                        v.patch > p
                    } else {
                        !pre_rank_lt(v.pre, c.pre)
                    },
                }
            },
        }
    }
}

/// `<`: strictly below the stated partial version.
pub open spec fn matches_less(v: VersionView, c: ComparatorView) -> bool {
    if v.major != c.major {
        v.major < c.major
    } else {
        match c.minor {
            None => false,
            Some(m) => if v.minor != m {
                v.minor < m
            } else {
                match c.patch {
                    None => false,
                    Some(p) => if v.patch != p {
                        v.patch < p
                    } else {
                        pre_rank_lt(v.pre, c.pre)
                    },
                }
            },
        }
    }
}

/// `<=`: at or below the stated partial version.
pub open spec fn matches_less_eq(v: VersionView, c: ComparatorView) -> bool {
    if v.major != c.major {
        v.major < c.major
    } else {
        match c.minor {
            None => true,
            Some(m) => if v.minor != m {
                v.minor < m
            } else {
                match c.patch {
                    None => true,
                    Some(p) => if v.patch != p {
                        v.patch < p
                    } else {
                        !pre_rank_lt(c.pre, v.pre)
                    },
                }
            },
        }
    }
}

/// `~`: same major (and minor, if stated); patch and pre-release at or
/// above the stated ones.
pub open spec fn matches_tilde(v: VersionView, c: ComparatorView) -> bool {
    if v.major != c.major {
        false
    } else {
        match c.minor {
            None => true,
            Some(m) => if v.minor != m {
                false
            } else {
                match c.patch {
                    None => true,
                    Some(p) => if v.patch != p {
                        v.patch > p
                    } else {
                        !pre_rank_lt(v.pre, c.pre)
                    },
                }
            },
        }
    }
}

/// `^`: compatible with the stated version; the leftmost non-zero
/// component fixes the compatibility window.
pub open spec fn matches_caret(v: VersionView, c: ComparatorView) -> bool {
    if v.major != c.major {
        false
    } else {
        match c.minor {
            None => true,
            Some(m) => match c.patch {
                None => if c.major > 0 {
                    v.minor >= m
                } else {
                    v.minor == m
                },
                Some(p) => if c.major > 0 {
                    if v.minor != m {
                        v.minor > m
                    } else if v.patch != p {
                        v.patch > p
                    } else {
                        !pre_rank_lt(v.pre, c.pre)
                    }
                } else if m > 0 {
                    if v.minor != m {
                        false
                    } else if v.patch != p {
                        v.patch > p
                    } else {
                        !pre_rank_lt(v.pre, c.pre)
                    }
                } else {
                    if v.minor != m || v.patch != p {
                        false
                    } else {
                        !pre_rank_lt(v.pre, c.pre)
                    }
                },
            },
        }
    }
}

/// `*` forms: the stated numeric components must agree.
pub open spec fn matches_wildcard(v: VersionView, c: ComparatorView) -> bool {
    match c.minor {
        None => v.major == c.major,
        Some(m) => match c.patch {
            None => v.major == c.major && v.minor == m,
            Some(p) => v.major == c.major && v.minor == m && v.patch == p,
        },
    }
}

/// Whether version `v` satisfies the single comparator `c`.
pub open spec fn comparator_matches(v: VersionView, c: ComparatorView) -> bool {
    match c.op {
        RangeOp::Exact => matches_exact(v, c),
        RangeOp::Greater => matches_greater(v, c),
        RangeOp::GreaterEq => matches_greater_eq(v, c),
        RangeOp::Less => matches_less(v, c),
        RangeOp::LessEq => matches_less_eq(v, c),
        RangeOp::Tilde => matches_tilde(v, c),
        RangeOp::Caret => matches_caret(v, c),
        RangeOp::Wildcard => matches_wildcard(v, c),
    }
}

/// A comparator that mentions a pre-release of exactly this triple,
/// which lets pre-release versions of the triple match the range.
pub open spec fn pre_compatible(v: VersionView, c: ComparatorView) -> bool {
    c.pre.len() > 0 && v.major == c.major && c.minor == Some(v.minor) && c.patch == Some(
        v.patch,
    )
}

/// Whether `v` satisfies the range `r`: the empty range matches every
/// version; otherwise every comparator must match, and a pre-release
/// version additionally needs one comparator naming a pre-release of its
/// triple.
pub open spec fn range_matches(v: VersionView, r: Seq<ComparatorView>) -> bool {
    if r.len() == 0 {
        true
    } else {
        (forall|i: int| 0 <= i < r.len() ==> comparator_matches(v, #[trigger] r[i]))
            && (v.pre.len() == 0 || exists|i: int|
            0 <= i < r.len() && pre_compatible(v, #[trigger] r[i]))
    }
}

/// Whether pre-release list `a` ranks strictly below `b`.
fn pre_rank_lt_exec(a: &Vec<String>, b: &Vec<String>) -> (r: bool)
    ensures
        r == pre_rank_lt(a.deep_view(), b.deep_view()),
{
    if a.len() > 0 && b.len() == 0 {
        true
    } else if a.len() == 0 || b.len() == 0 {
        false
    } else {
        pre_list_lt_exec(a, b)
    }
}

/// Whether two pre-release lists hold the same identifiers.
fn pre_lists_eq(a: &Vec<String>, b: &Vec<String>) -> (r: bool)
    ensures
        r == (a.deep_view() == b.deep_view()),
{
    if a.len() != b.len() {
        proof {
            assert(a.deep_view().len() != b.deep_view().len());
        }
        return false;
    }
    let mut i: usize = 0;
    while i < a.len()
        invariant
            a.len() == b.len(),
            i <= a.len(),
            forall|j: int| 0 <= j < i ==> a.deep_view()[j] == b.deep_view()[j],
        decreases a.len() - i,
    {
        if !crate::text::str_eq(a[i].as_str(), b[i].as_str()) {
            proof {
                assert(a.deep_view()[i as int] != b.deep_view()[i as int]);
            }
            return false;
        }
        i = i + 1;
    }
    proof {
        assert(a.deep_view() =~= b.deep_view());
    }
    true
}

/// Whether version `v` satisfies the single comparator `c`.
fn comparator_matches_exec(v: &Version, c: &Comparator) -> (r: bool)
    ensures
        r == comparator_matches(v@, c@),
{
    match c.op {
        RangeOp::Exact => {
            let fields = v.major == c.major && (match c.minor {
                Some(m) => v.minor == m,
                None => true,
            }) && (match c.patch {
                Some(p) => v.patch == p,
                None => true,
            });
            fields && pre_lists_eq(&v.pre, &c.pre)
        },
        RangeOp::Greater => {
            if v.major != c.major {
                v.major > c.major
            } else {
                match c.minor {
                    None => false,
                    Some(m) => if v.minor != m {
                        v.minor > m
                    } else {
                        match c.patch {
                            None => false,
                            Some(p) => if v.patch != p {
                                v.patch > p
                            } else {
                                pre_rank_lt_exec(&c.pre, &v.pre)
                            },
                        }
                    },
                }
            }
        },
        RangeOp::GreaterEq => {
            if v.major != c.major {
                v.major > c.major
            } else {
                match c.minor {
                    None => true,
                    Some(m) => if v.minor != m {
                        v.minor > m
                    } else {
                        match c.patch {
                            None => true,
                            Some(p) => if v.patch != p {
                                v.patch > p
                            } else {
                                !pre_rank_lt_exec(&v.pre, &c.pre)
                            },
                        }
                    },
                }
            }
        },
        RangeOp::Less => {
            if v.major != c.major {
                v.major < c.major
            } else {
                match c.minor {
                    None => false,
                    Some(m) => if v.minor != m {
                        v.minor < m
                    } else {
                        match c.patch {
                            None => false,
                            Some(p) => if v.patch != p {
                                v.patch < p
                            } else {
                                pre_rank_lt_exec(&v.pre, &c.pre)
                            },
                        }
                    },
                }
            }
        },
        RangeOp::LessEq => {
            if v.major != c.major {
                v.major < c.major
            } else {
                match c.minor {
                    None => true,
                    Some(m) => if v.minor != m {
                        v.minor < m
                    } else {
                        match c.patch {
                            None => true,
                            Some(p) => if v.patch != p {
                                v.patch < p
                            } else {
                                !pre_rank_lt_exec(&c.pre, &v.pre)
                            },
                        }
                    },
                }
            }
        },
        RangeOp::Tilde => {
            if v.major != c.major {
                false
            } else {
                match c.minor {
                    None => true,
                    Some(m) => if v.minor != m {
                        false
                    } else {
                        match c.patch {
                            None => true,
                            Some(p) => if v.patch != p {
                                v.patch > p
                            } else {
                                !pre_rank_lt_exec(&v.pre, &c.pre)
                            },
                        }
                    },
                }
            }
        },
        RangeOp::Caret => {
            if v.major != c.major {
                false
            } else {
                match c.minor {
                    None => true,
                    Some(m) => match c.patch {
                        None => if c.major > 0 {
                            v.minor >= m
                        } else {
                            v.minor == m
                        },
                        Some(p) => if c.major > 0 {
                            if v.minor != m {
                                v.minor > m
                            } else if v.patch != p {
                                v.patch > p
                            } else {
                                !pre_rank_lt_exec(&v.pre, &c.pre)
                            }
                        } else if m > 0 {
                            if v.minor != m {
                                false
                            } else if v.patch != p {
                                v.patch > p
                            } else {
                                !pre_rank_lt_exec(&v.pre, &c.pre)
                            }
                        } else {
                            if v.minor != m || v.patch != p {
                                false
                            } else {
                                !pre_rank_lt_exec(&v.pre, &c.pre)
                            }
                        },
                    },
                }
            }
        },
        RangeOp::Wildcard => {
            match c.minor {
                None => v.major == c.major,
                Some(m) => match c.patch {
                    None => v.major == c.major && v.minor == m,
                    Some(p) => v.major == c.major && v.minor == m && v.patch == p,
                },
            }
        },
    }
}

/// Whether a comparator makes pre-releases of `v`'s triple eligible.
fn pre_compatible_exec(v: &Version, c: &Comparator) -> (r: bool)
    ensures
        r == pre_compatible(v@, c@),
{
    c.pre.len() > 0 && v.major == c.major && (match c.minor {
        Some(m) => m == v.minor,
        None => false,
    }) && (match c.patch {
        Some(p) => p == v.patch,
        None => false,
    })
}

/// Whether version `v` satisfies range `r`.
pub fn satisfies(v: &Version, r: &VersionRange) -> (res: bool)
    ensures
        res == range_matches(v@, r@),
{
    if r.comparators.len() == 0 {
        return true;
    }
    let mut i: usize = 0;
    while i < r.comparators.len()
        invariant
            i <= r.comparators.len(),
            forall|j: int| 0 <= j < i ==> comparator_matches(v@, #[trigger] r@[j]),
        decreases r.comparators.len() - i,
    {
        if !comparator_matches_exec(v, &r.comparators[i]) {
            proof {
                assert(r@[i as int] == r.comparators@[i as int]@);
            }
            return false;
        }
        proof {
            assert(r@[i as int] == r.comparators@[i as int]@);
        }
        i = i + 1;
    }
    if v.pre.len() == 0 {
        proof {
            assert(v@.pre.len() == 0);
        }
        return true;
    }
    let mut i: usize = 0;
    while i < r.comparators.len()
        invariant
            i <= r.comparators.len(),
            forall|j: int| 0 <= j < r@.len() ==> comparator_matches(v@, #[trigger] r@[j]),
            forall|j: int| 0 <= j < i ==> !pre_compatible(v@, #[trigger] r@[j]),
        decreases r.comparators.len() - i,
    {
        if pre_compatible_exec(v, &r.comparators[i]) {
            proof {
                assert(r@[i as int] == r.comparators@[i as int]@);
            }
            return true;
        }
        proof {
            assert(r@[i as int] == r.comparators@[i as int]@);
        }
        i = i + 1;
    }
    proof {
        assert(v@.pre.len() > 0);
    }
    false
}

} // verus!
// The module continues: range parsing and rendering.

verus! {

/// The number of leading space characters of `s`.
pub open spec fn leading_spaces(s: Seq<char>) -> int
    decreases s.len(),
{
    if s.len() == 0 || s[0] != ' ' {
        0
    } else {
        1 + leading_spaces(s.subrange(1, s.len() as int))
    }
}

/// The number of trailing space characters of `s`.
pub open spec fn trailing_spaces(s: Seq<char>) -> int
    decreases s.len(),
{
    if s.len() == 0 || s.last() != ' ' {
        0
    } else {
        1 + trailing_spaces(s.drop_last())
    }
}

/// `s` without leading and trailing spaces.
pub open spec fn trim_spaces(s: Seq<char>) -> Seq<char> {
    if leading_spaces(s) == s.len() {
        Seq::<char>::empty()
    } else {
        s.subrange(leading_spaces(s), s.len() - trailing_spaces(s))
    }
}

/// The leading-space count is the position of the first non-space.
proof fn lemma_leading_spaces(s: Seq<char>)
    ensures
        0 <= leading_spaces(s) <= s.len(),
        forall|i: int| 0 <= i < leading_spaces(s) ==> s[i] == ' ',
        leading_spaces(s) < s.len() ==> s[leading_spaces(s)] != ' ',
    decreases s.len(),
{
    if s.len() > 0 && s[0] == ' ' {
        let t = s.subrange(1, s.len() as int);
        lemma_leading_spaces(t);
        assert forall|i: int| 1 <= i < leading_spaces(s) implies s[i] == ' ' by {
            assert(s[i] == t[i - 1]);
        }
    }
}

/// The trailing-space count is the distance from the end to the last
/// non-space.
proof fn lemma_trailing_spaces(s: Seq<char>)
    ensures
        0 <= trailing_spaces(s) <= s.len(),
        forall|i: int| s.len() - trailing_spaces(s) <= i < s.len() ==> s[i] == ' ',
        trailing_spaces(s) < s.len() ==> s[s.len() - trailing_spaces(s) - 1] != ' ',
    decreases s.len(),
{
    if s.len() > 0 && s.last() == ' ' {
        let t = s.drop_last();
        lemma_trailing_spaces(t);
        assert forall|i: int| s.len() - trailing_spaces(s) <= i < s.len() - 1 implies s[i]
            == ' ' by {
            assert(s[i] == t[i]);
        }
    }
}

/// `v` without leading and trailing spaces.
fn trim_exec(v: &Vec<char>) -> (r: Vec<char>)
    ensures
        r@ == trim_spaces(v@),
{
    proof {
        lemma_leading_spaces(v@);
        lemma_trailing_spaces(v@);
    }
    let mut a: usize = 0;
    while a < v.len() && v[a] == ' '
        invariant
            a <= v.len(),
            forall|j: int| 0 <= j < a ==> v@[j] == ' ',
        decreases v.len() - a,
    {
        a = a + 1;
    }
    if a == v.len() {
        proof {
            if leading_spaces(v@) < v@.len() {
                assert(v@[leading_spaces(v@)] == ' ');
            }
            assert(leading_spaces(v@) == v@.len());
        }
        return Vec::new();
    }
    proof {
        assert(a as int == leading_spaces(v@));
    }
    let mut t: usize = 0;
    while t < v.len() && v[v.len() - 1 - t] == ' '
        invariant
            t <= v.len(),
            forall|j: int| v@.len() - t <= j < v@.len() ==> v@[j] == ' ',
        decreases v.len() - t,
    {
        t = t + 1;
    }
    proof {
        assert(t as int == trailing_spaces(v@));
        assert(a <= v@.len() - t - 1);
    }
    vec_slice(v, a, v.len() - t)
}

/// A wildcard component: `*`, `x` or `X`.
pub open spec fn is_wild(s: Seq<char>) -> bool {
    s =~= seq!['*'] || s =~= seq!['x'] || s =~= seq!['X']
}

/// Whether `v` is a wildcard component.
fn is_wild_exec(v: &Vec<char>) -> (r: bool)
    ensures
        r == is_wild(v@),
{
    if v.len() != 1 {
        proof {
            assert(seq!['*'].len() == 1);
            assert(seq!['x'].len() == 1);
            assert(seq!['X'].len() == 1);
        }
        return false;
    }
    let c = v[0];
    let r = c == '*' || c == 'x' || c == 'X';
    proof {
        if r {
            if c == '*' {
                assert(v@ =~= seq!['*']);
            } else if c == 'x' {
                assert(v@ =~= seq!['x']);
            } else {
                assert(v@ =~= seq!['X']);
            }
        } else {
            assert(v@[0] != '*' && v@[0] != 'x' && v@[0] != 'X');
            assert(!(v@ =~= seq!['*']));
            assert(!(v@ =~= seq!['x']));
            assert(!(v@ =~= seq!['X']));
        }
    }
    r
}

/// The partial-version grammar behind a comparator operator: one to
/// three dot-separated numeric components, wildcards only without an
/// explicit operator and only in the last written position, a
/// pre-release only after a full triple, and an optional ignored build
/// part.
pub open spec fn spec_parse_partial(s: Seq<char>, op: RangeOp, explicit: bool) -> Option<
    ComparatorView,
> {
    let kplus = find_first(s, '+');
    let core_pre = if kplus >= 0 { s.subrange(0, kplus) } else { s };
    let build = if kplus >= 0 { s.subrange(kplus + 1, s.len() as int) } else { Seq::<char>::empty() };
    let kdash = find_first(core_pre, '-');
    let core = if kdash >= 0 { core_pre.subrange(0, kdash) } else { core_pre };
    let prestr = if kdash >= 0 {
        core_pre.subrange(kdash + 1, core_pre.len() as int)
    } else {
        Seq::<char>::empty()
    };
    let parts = split_char(core, '.');
    let prelist = split_char(prestr, '.');
    if (kplus >= 0 && !all_valid_build(split_char(build, '.'))) || (kdash >= 0
        && !all_valid_pre(prelist)) || parts.len() > 3 || !(valid_num(parts[0]) && num_value(
        parts[0],
    ) <= u64::MAX) {
        None
    } else {
        let major = num_value(parts[0]) as u64;
        if parts.len() == 1 {
            if kdash >= 0 {
                None
            } else {
                Some(ComparatorView { op, major, minor: None, patch: None, pre: Seq::empty() })
            }
        } else if is_wild(parts[1]) {
            if explicit || parts.len() > 2 || kdash >= 0 {
                None
            } else {
                Some(
                    ComparatorView {
                        op: RangeOp::Wildcard,
                        major,
                        minor: None,
                        patch: None,
                        pre: Seq::empty(),
                    },
                )
            }
        } else if !(valid_num(parts[1]) && num_value(parts[1]) <= u64::MAX) {
            None
        } else {
            let minor = num_value(parts[1]) as u64;
            if parts.len() == 2 {
                if kdash >= 0 {
                    None
                } else {
                    Some(
                        ComparatorView {
                            op,
                            major,
                            minor: Some(minor),
                            patch: None,
                            pre: Seq::empty(),
                        },
                    )
                }
            } else if is_wild(parts[2]) {
                if explicit || kdash >= 0 {
                    None
                } else {
                    Some(
                        ComparatorView {
                            op: RangeOp::Wildcard,
                            major,
                            minor: Some(minor),
                            patch: None,
                            pre: Seq::empty(),
                        },
                    )
                }
            } else if !(valid_num(parts[2]) && num_value(parts[2]) <= u64::MAX) {
                None
            } else {
                Some(
                    ComparatorView {
                        op,
                        major,
                        minor: Some(minor),
                        patch: Some(num_value(parts[2]) as u64),
                        pre: if kdash >= 0 { prelist } else { Seq::empty() },
                    },
                )
            }
        }
    }
}

/// The comparator grammar: optional surrounding spaces, an optional
/// operator (`=`, `>`, `>=`, `<`, `<=`, `~`, `^`; none means `^`), then a
/// partial version.
pub open spec fn spec_parse_comparator(s0: Seq<char>) -> Option<ComparatorView> {
    let s = trim_spaces(s0);
    if s.len() >= 2 && s[0] == '>' && s[1] == '=' {
        spec_parse_partial(s.subrange(2, s.len() as int), RangeOp::GreaterEq, true)
    } else if s.len() >= 2 && s[0] == '<' && s[1] == '=' {
        spec_parse_partial(s.subrange(2, s.len() as int), RangeOp::LessEq, true)
    } else if s.len() >= 1 && s[0] == '>' {
        spec_parse_partial(s.subrange(1, s.len() as int), RangeOp::Greater, true)
    } else if s.len() >= 1 && s[0] == '<' {
        spec_parse_partial(s.subrange(1, s.len() as int), RangeOp::Less, true)
    } else if s.len() >= 1 && s[0] == '=' {
        spec_parse_partial(s.subrange(1, s.len() as int), RangeOp::Exact, true)
    } else if s.len() >= 1 && s[0] == '^' {
        spec_parse_partial(s.subrange(1, s.len() as int), RangeOp::Caret, true)
    } else if s.len() >= 1 && s[0] == '~' {
        spec_parse_partial(s.subrange(1, s.len() as int), RangeOp::Tilde, true)
    } else {
        spec_parse_partial(s, RangeOp::Caret, false)
    }
}

/// The range grammar: `*` alone (the empty conjunction), or
/// comma-separated comparators.
pub open spec fn spec_parse_range(s: Seq<char>) -> Option<Seq<ComparatorView>> {
    if trim_spaces(s) =~= seq!['*'] {
        Some(Seq::<ComparatorView>::empty())
    } else {
        let parts = split_char(s, ',');
        if forall|i: int| 0 <= i < parts.len() ==> spec_parse_comparator(#[trigger] parts[i]) is Some {
            Some(Seq::new(parts.len(), |i: int| spec_parse_comparator(parts[i]).unwrap()))
        } else {
            None
        }
    }
}

/// Parses a partial version behind an operator.
fn parse_partial(v: &Vec<char>, op: RangeOp, explicit: bool) -> (r: Option<Comparator>)
    ensures
        match r {
            Some(c) => spec_parse_partial(v@, op, explicit) == Some(c@),
            None => spec_parse_partial(v@, op, explicit) is None,
        },
{
    let (core_pre, build) = match find_char(v, '+') {
        Some(k) => {
            proof {
                crate::text::lemma_find_first(v@, '+');
            }
            let n = v.len();
            let cp = vec_slice(v, 0, k);
            let b = vec_slice(v, k + 1, n);
            (cp, Some(b))
        },
        None => {
            let cp = vec_slice(v, 0, v.len());
            proof {
                assert(cp@ =~= v@);
            }
            (cp, None)
        },
    };
    if let Some(b) = &build {
        let blist = split_chars(b, '.');
        if !check_all_build(&blist) {
            return None;
        }
    }
    let (core, prestr) = match find_char(&core_pre, '-') {
        Some(k) => {
            proof {
                crate::text::lemma_find_first(core_pre@, '-');
            }
            let n = core_pre.len();
            let c = vec_slice(&core_pre, 0, k);
            let p = vec_slice(&core_pre, k + 1, n);
            (c, Some(p))
        },
        None => (core_pre, None),
    };
    let mut pre: Vec<String> = Vec::new();
    if let Some(p) = &prestr {
        let prelist = split_chars(p, '.');
        if !check_all_pre(&prelist) {
            return None;
        }
        let mut i: usize = 0;
        while i < prelist.len()
            invariant
                i <= prelist.len(),
                pre.deep_view() == prelist.deep_view().subrange(0, i as int),
            decreases prelist.len() - i,
        {
            let ghost prevv = pre@;
            let ghost oldpre = pre.deep_view();
            let piece = chars_to_string(&prelist[i]);
            let ghost piecev = piece@;
            pre.push(piece);
            i = i + 1;
            proof {
                assert(piecev == prelist.deep_view()[i - 1]);
                assert(pre@.len() == prevv.len() + 1);
                assert(prevv.len() == oldpre.len());
                assert(oldpre.len() == i - 1);
                assert forall|j: int| 0 <= j < i implies pre.deep_view()[j]
                    == prelist.deep_view()[j] by {
                    if j < i - 1 {
                        assert(pre@[j] == prevv[j]);
                        assert(pre.deep_view()[j] == pre@[j].deep_view());
                        assert(oldpre[j] == prevv[j].deep_view());
                        assert(oldpre[j] == prelist.deep_view().subrange(0, i - 1)[j]);
                    } else {
                        assert(pre@[j]@ == piecev);
                        assert(pre.deep_view()[j] == pre@[j].deep_view());
                    }
                }
                assert(pre.deep_view() =~= prelist.deep_view().subrange(0, i as int));
            }
        }
        proof {
            assert(prelist.deep_view().subrange(0, prelist.deep_view().len() as int)
                =~= prelist.deep_view());
        }
    } else {
        proof {
            assert(pre.deep_view() =~= Seq::<Seq<char>>::empty());
        }
    }
    let parts = split_chars(&core, '.');
    if parts.len() > 3 {
        return None;
    }
    proof {
        assert(split_char(core@, '.').len() > 0);
        assert(parts.deep_view()[0] == parts@[0]@);
    }
    let major = match parse_num_component(&parts[0]) {
        Some(n) => n,
        None => {
            return None;
        },
    };
    if parts.len() == 1 {
        if prestr.is_some() {
            return None;
        }
        return Some(
            Comparator { op, major, minor: None, patch: None, pre: Vec::new() },
        );
    }
    proof {
        assert(parts.deep_view()[1] == parts@[1]@);
    }
    if is_wild_exec(&parts[1]) {
        if explicit || parts.len() > 2 || prestr.is_some() {
            return None;
        }
        return Some(
            Comparator { op: RangeOp::Wildcard, major, minor: None, patch: None, pre: Vec::new() },
        );
    }
    let minor = match parse_num_component(&parts[1]) {
        Some(n) => n,
        None => {
            return None;
        },
    };
    if parts.len() == 2 {
        if prestr.is_some() {
            return None;
        }
        return Some(
            Comparator { op, major, minor: Some(minor), patch: None, pre: Vec::new() },
        );
    }
    proof {
        assert(parts.deep_view()[2] == parts@[2]@);
    }
    if is_wild_exec(&parts[2]) {
        if explicit || prestr.is_some() {
            return None;
        }
        return Some(
            Comparator {
                op: RangeOp::Wildcard,
                major,
                minor: Some(minor),
                patch: None,
                pre: Vec::new(),
            },
        );
    }
    let patch = match parse_num_component(&parts[2]) {
        Some(n) => n,
        None => {
            return None;
        },
    };
    Some(Comparator { op, major, minor: Some(minor), patch: Some(patch), pre })
}

/// Parses one comparator.
fn parse_comparator(v: &Vec<char>) -> (r: Option<Comparator>)
    ensures
        match r {
            Some(c) => spec_parse_comparator(v@) == Some(c@),
            None => spec_parse_comparator(v@) is None,
        },
{
    let s = trim_exec(v);
    let n = s.len();
    if n >= 2 {
        let c0 = s[0];
        let c1 = s[1];
        if c0 == '>' && c1 == '=' {
            let rest = vec_slice(&s, 2, n);
            return parse_partial(&rest, RangeOp::GreaterEq, true);
        }
        if c0 == '<' && c1 == '=' {
            let rest = vec_slice(&s, 2, n);
            return parse_partial(&rest, RangeOp::LessEq, true);
        }
    }
    if n >= 1 {
        let c0 = s[0];
        if c0 == '>' {
            let rest = vec_slice(&s, 1, n);
            return parse_partial(&rest, RangeOp::Greater, true);
        }
        if c0 == '<' {
            let rest = vec_slice(&s, 1, n);
            return parse_partial(&rest, RangeOp::Less, true);
        }
        if c0 == '=' {
            let rest = vec_slice(&s, 1, n);
            return parse_partial(&rest, RangeOp::Exact, true);
        }
        if c0 == '^' {
            let rest = vec_slice(&s, 1, n);
            return parse_partial(&rest, RangeOp::Caret, true);
        }
        if c0 == '~' {
            let rest = vec_slice(&s, 1, n);
            return parse_partial(&rest, RangeOp::Tilde, true);
        }
    }
    parse_partial(&s, RangeOp::Caret, false)
}

/// Parses a version range. Returns `Err` exactly when the input does not
/// follow the range grammar of [`spec_parse_range`].
pub fn parse_range(s: &str) -> (r: Result<VersionRange, ParseError>)
    ensures
        match r {
            Ok(vr) => spec_parse_range(s@) == Some(vr@),
            Err(_) => spec_parse_range(s@) is None,
        },
{
    let chars = str_chars(s);
    let trimmed = trim_exec(&chars);
    if trimmed.len() == 1 {
        let c = trimmed[0];
        if c == '*' {
            proof {
                assert(trim_spaces(s@) =~= seq!['*']);
            }
            return Ok(VersionRange { comparators: Vec::new() });
        }
    }
    proof {
        if trim_spaces(s@) =~= seq!['*'] {
            assert(trimmed@.len() == 1 && trimmed@[0] == '*');
        }
        assert(!(trim_spaces(s@) =~= seq!['*']));
    }
    let parts = split_chars(&chars, ',');
    let mut comparators: Vec<Comparator> = Vec::new();
    let mut i: usize = 0;
    while i < parts.len()
        invariant
            i <= parts.len(),
            comparators.deep_view().len() == i as int,
            chars@ == s@,
            parts.deep_view() == split_char(chars@, ','),
            !(trim_spaces(s@) =~= seq!['*']),
            forall|j: int| 0 <= j < i ==> spec_parse_comparator(
                #[trigger] parts.deep_view()[j],
            ) == Some(comparators.deep_view()[j]),
        decreases parts.len() - i,
    {
        let ghost prevv = comparators@;
        let ghost oldc = comparators.deep_view();
        match parse_comparator(&parts[i]) {
            Some(c) => {
                let ghost cv = c@;
                comparators.push(c);
                proof {
                    assert(parts.deep_view()[i as int] == parts@[i as int]@);
                    assert(comparators@.len() == prevv.len() + 1);
                    assert(prevv.len() == oldc.len());
                    assert(oldc.len() == i as int);
                    assert forall|j: int| 0 <= j < i + 1 implies spec_parse_comparator(
                        #[trigger] parts.deep_view()[j],
                    ) == Some(comparators.deep_view()[j]) by {
                        if j < i as int {
                            assert(comparators@[j] == prevv[j]);
                            assert(comparators.deep_view()[j] == comparators@[j].deep_view());
                            assert(oldc[j] == prevv[j].deep_view());
                        } else {
                            assert(comparators@[j]@ == cv);
                            assert(comparators.deep_view()[j] == comparators@[j].deep_view());
                        }
                    }
                }
            },
            None => {
                proof {
                    assert(parts.deep_view()[i as int] == parts@[i as int]@);
                    assert(spec_parse_comparator(parts.deep_view()[i as int]) is None);
                    assert(parts.deep_view().len() == parts@.len());
                    assert(split_char(chars@, ',') == parts.deep_view());
                    assert(spec_parse_comparator(split_char(chars@, ',')[i as int]) is None);
                }
                return Err(ParseError);
            },
        }
        i = i + 1;
    }
    let r = VersionRange { comparators };
    proof {
        let spec_parts = split_char(chars@, ',');
        assert forall|j: int| 0 <= j < spec_parts.len() implies spec_parse_comparator(
            #[trigger] spec_parts[j],
        ) is Some by {
            assert(spec_parse_comparator(parts.deep_view()[j]) == Some(r@[j]));
        }
        assert(r@ =~= Seq::new(
            spec_parts.len(),
            |j: int| spec_parse_comparator(spec_parts[j]).unwrap(),
        ));
    }
    Ok(r)
}

} // verus!

// The module ends with the clone implementations.

use crate::text::clone_strings;

verus! {

impl Clone for Version {
    /// A copy equal to this version in every field.
    fn clone(&self) -> (r: Self)
        ensures
            r@ == self@,
    {
        let r = Version {
            major: self.major,
            minor: self.minor,
            patch: self.patch,
            pre: clone_strings(&self.pre),
            build: self.build.clone(),
        };
        proof {
            assert(r@ =~= self@);
        }
        r
    }
}

impl Clone for Comparator {
    /// A copy equal to this comparator in every field.
    fn clone(&self) -> (r: Self)
        ensures
            r@ == self@,
    {
        let r = Comparator {
            op: self.op,
            major: self.major,
            minor: self.minor,
            patch: self.patch,
            pre: clone_strings(&self.pre),
        };
        proof {
            assert(r@ =~= self@);
        }
        r
    }
}

impl Clone for VersionRange {
    /// A copy equal to this range in every field.
    fn clone(&self) -> (r: Self)
        ensures
            r@ == self@,
    {
        let mut comparators: Vec<Comparator> = Vec::new();
        let mut i: usize = 0;
        while i < self.comparators.len()
            invariant
                i <= self.comparators.len(),
                comparators.deep_view() == self.comparators.deep_view().subrange(0, i as int),
            decreases self.comparators.len() - i,
        {
            let ghost prevv = comparators@;
            let ghost oldr = comparators.deep_view();
            let piece = self.comparators[i].clone();
            let ghost piecev = piece@;
            comparators.push(piece);
            i = i + 1;
            proof {
                assert(piecev == self.comparators.deep_view()[i - 1]);
                assert(comparators@.len() == prevv.len() + 1);
                assert(prevv.len() == oldr.len());
                assert(oldr.len() == i - 1);
                assert forall|j: int| 0 <= j < i implies comparators.deep_view()[j]
                    == self.comparators.deep_view()[j] by {
                    if j < i - 1 {
                        assert(comparators@[j] == prevv[j]);
                        assert(comparators.deep_view()[j] == comparators@[j].deep_view());
                        assert(oldr[j] == prevv[j].deep_view());
                        assert(oldr[j] == self.comparators.deep_view().subrange(0, i - 1)[j]);
                    } else {
                        assert(comparators@[j]@ == piecev);
                        assert(comparators.deep_view()[j] == comparators@[j].deep_view());
                    }
                }
                assert(comparators.deep_view() =~= self.comparators.deep_view().subrange(
                    0,
                    i as int,
                ));
            }
        }
        proof {
            assert(self.comparators.deep_view().subrange(
                0,
                self.comparators.deep_view().len() as int,
            ) =~= self.comparators.deep_view());
        }
        VersionRange { comparators }
    }
}

} // verus!
// The module ends: rendering of ranges.

verus! {

/// The operator symbol of a comparator.
pub open spec fn op_rep(op: RangeOp) -> Seq<char> {
    match op {
        RangeOp::Exact => seq!['='],
        RangeOp::Greater => seq!['>'],
        RangeOp::GreaterEq => seq!['>', '='],
        RangeOp::Less => seq!['<'],
        RangeOp::LessEq => seq!['<', '='],
        RangeOp::Tilde => seq!['~'],
        RangeOp::Caret => seq!['^'],
        RangeOp::Wildcard => Seq::<char>::empty(),
    }
}

/// The canonical rendering of one comparator.
pub open spec fn comparator_rep(c: ComparatorView) -> Seq<char> {
    if c.op is Wildcard {
        dec_rep(c.major as nat) + seq!['.'] + (match c.minor {
            Some(m) => dec_rep(m as nat) + seq!['.', '*'],
            None => seq!['*'],
        })
    } else {
        op_rep(c.op) + dec_rep(c.major as nat) + (match c.minor {
            None => Seq::<char>::empty(),
            Some(m) => seq!['.'] + dec_rep(m as nat) + (match c.patch {
                None => Seq::<char>::empty(),
                Some(p) => seq!['.'] + dec_rep(p as nat) + (if c.pre.len() > 0 {
                    seq!['-'] + join_idents(c.pre)
                } else {
                    Seq::<char>::empty()
                }),
            }),
        })
    }
}

/// The canonical rendering of a range: `*` for the empty conjunction,
/// else the comparators joined with `, `.
pub open spec fn range_rep(r: Seq<ComparatorView>) -> Seq<char> {
    if r.len() == 0 {
        seq!['*']
    } else {
        range_rep_prefix(r, r.len() as int)
    }
}

/// Appends the rendering of one comparator to `out`.
#[verifier::rlimit(100)]
#[verifier::spinoff_prover]
fn push_comparator(out: &mut Vec<char>, c: &Comparator)
    ensures
        final(out)@ == old(out)@ + comparator_rep(c@),
{
    match c.op {
        RangeOp::Wildcard => {
            push_u64(out, c.major);
            out.push('.');
            match c.minor {
                Some(m) => {
                    push_u64(out, m);
                    out.push('.');
                    out.push('*');
                },
                None => {
                    out.push('*');
                },
            }
            proof {
                assert(out@ =~= old(out)@ + comparator_rep(c@));
            }
        },
        _ => {
            match c.op {
                RangeOp::Exact => out.push('='),
                RangeOp::Greater => out.push('>'),
                RangeOp::GreaterEq => {
                    out.push('>');
                    out.push('=');
                },
                RangeOp::Less => out.push('<'),
                RangeOp::LessEq => {
                    out.push('<');
                    out.push('=');
                },
                RangeOp::Tilde => out.push('~'),
                RangeOp::Caret => out.push('^'),
                RangeOp::Wildcard => {},
            }
            proof {
                assert(out@ =~= old(out)@ + op_rep(c@.op));
            }
            push_u64(out, c.major);
            match c.minor {
                None => {},
                Some(m) => {
                    out.push('.');
                    push_u64(out, m);
                    match c.patch {
                        None => {},
                        Some(p) => {
                            out.push('.');
                            push_u64(out, p);
                            if c.pre.len() > 0 {
                                out.push('-');
                                let mut i: usize = 0;
                                let ghost base = out@;
                                while i < c.pre.len()
                                    invariant
                                        0 < c.pre.len(),
                                        i <= c.pre.len(),
                                        i > 0 ==> out@ == base + join_idents(
                                            c.pre.deep_view().subrange(0, i as int),
                                        ),
                                        i == 0 ==> out@ == base,
                                    decreases c.pre.len() - i,
                                {
                                    if i > 0 {
                                        out.push('.');
                                    }
                                    crate::text::push_str_chars(out, c.pre[i].as_str());
                                    i = i + 1;
                                    proof {
                                        lemma_join_idents_snoc(
                                            c.pre.deep_view().subrange(0, i as int),
                                        );
                                        assert(c.pre.deep_view().subrange(0, i as int).subrange(
                                            0,
                                            i - 1,
                                        ) =~= c.pre.deep_view().subrange(0, i - 1));
                                    }
                                }
                                proof {
                                    assert(c.pre.deep_view().subrange(
                                        0,
                                        c.pre.len() as int,
                                    ) =~= c.pre.deep_view());
                                }
                            }
                        },
                    }
                },
            }
            proof {
                assert(out@ =~= old(out)@ + comparator_rep(c@));
            }
        },
    }
}

/// The canonical rendering of a range as a string.
pub fn range_to_string(r: &VersionRange) -> (s: String)
    ensures
        s@ == range_rep(r@),
{
    let mut out: Vec<char> = Vec::new();
    if r.comparators.len() == 0 {
        out.push('*');
        proof {
            assert(out@ =~= range_rep(r@));
        }
        return chars_to_string(&out);
    }
    let mut i: usize = 0;
    while i < r.comparators.len()
        invariant
            i <= r.comparators.len(),
            r@.len() == r.comparators@.len(),
            out@ == range_rep_prefix(r@, i as int),
        decreases r.comparators.len() - i,
    {
        if i > 0 {
            out.push(',');
            out.push(' ');
        }
        push_comparator(&mut out, &r.comparators[i]);
        i = i + 1;
        proof {
            assert(r@[i - 1] == r.comparators@[i - 1]@);
            assert(out@ =~= range_rep_prefix(r@, i as int));
        }
    }
    chars_to_string(&out)
}

/// The rendering of the first `i` comparators, joined with `, `.
pub open spec fn range_rep_prefix(r: Seq<ComparatorView>, i: int) -> Seq<char>
    decreases i,
{
    if i <= 0 {
        Seq::<char>::empty()
    } else if i == 1 {
        comparator_rep(r[0])
    } else {
        range_rep_prefix(r, i - 1) + seq![',', ' '] + comparator_rep(r[i - 1])
    }
}

} // verus!
