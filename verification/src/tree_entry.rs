use vstd::prelude::*;

use core::cmp::Ordering;

use crate::GitError;
use crate::bytes::bytes_eq;

verus! {

/// The four modes a tree entry can carry, determining its octal mode token and
/// whether its target is a tree or a blob.
#[derive(Clone, Copy, Debug, PartialEq, Eq, Structural)]
pub enum TreeEntryMode {
    /// A regular file, mode token `100644`.
    NormalFile,
    /// A regular file with an executable bit, mode token `100755`.
    ExecutableFile,
    /// A symbolic link, mode token `120000`.
    Symlink,
    /// A directory, mode token `40000`.
    Directory,
}

/// The ASCII octal mode token serialized for `m`.
pub open spec fn mode_token(m: TreeEntryMode) -> Seq<u8> {
    match m {
        TreeEntryMode::NormalFile => seq![49u8, 48u8, 48u8, 54u8, 52u8, 52u8],
        TreeEntryMode::ExecutableFile => seq![49u8, 48u8, 48u8, 55u8, 53u8, 53u8],
        TreeEntryMode::Symlink => seq![49u8, 50u8, 48u8, 48u8, 48u8, 48u8],
        TreeEntryMode::Directory => seq![52u8, 48u8, 48u8, 48u8, 48u8],
    }
}

/// The mode whose token is `t`, if `t` is one of the four recognized tokens.
pub open spec fn mode_of_token(t: Seq<u8>) -> Option<TreeEntryMode> {
    if t == mode_token(TreeEntryMode::NormalFile) {
        Some(TreeEntryMode::NormalFile)
    } else if t == mode_token(TreeEntryMode::ExecutableFile) {
        Some(TreeEntryMode::ExecutableFile)
    } else if t == mode_token(TreeEntryMode::Symlink) {
        Some(TreeEntryMode::Symlink)
    } else if t == mode_token(TreeEntryMode::Directory) {
        Some(TreeEntryMode::Directory)
    } else {
        None
    }
}

/// Each mode is recovered from its own token.
pub proof fn lemma_mode_token_inverse(m: TreeEntryMode)
    ensures
        mode_of_token(mode_token(m)) == Some(m),
{
    assert(mode_token(TreeEntryMode::NormalFile)[3] == 54);
    assert(mode_token(TreeEntryMode::ExecutableFile)[3] == 55);
    assert(mode_token(TreeEntryMode::NormalFile)[1] == 48);
    assert(mode_token(TreeEntryMode::ExecutableFile)[1] == 48);
    assert(mode_token(TreeEntryMode::Symlink)[1] == 50);
    assert(mode_token(TreeEntryMode::Directory).len() == 5);
    assert(mode_token(TreeEntryMode::NormalFile).len() == 6);
    assert(mode_token(TreeEntryMode::ExecutableFile).len() == 6);
    assert(mode_token(TreeEntryMode::Symlink).len() == 6);
}

/// Every byte of a mode token is an ASCII digit (so never a space or a NUL).
pub proof fn lemma_mode_token_digits(m: TreeEntryMode)
    ensures
        forall|j: int|
            0 <= j < mode_token(m).len() ==> 48 <= #[trigger] mode_token(m)[j] <= 57,
{
    let tok = mode_token(m);
    assert forall|j: int| 0 <= j < tok.len() implies 48 <= #[trigger] tok[j] <= 57 by {
        match m {
            TreeEntryMode::NormalFile => {
                assert(tok =~= seq![49u8, 48u8, 48u8, 54u8, 52u8, 52u8]);
            },
            TreeEntryMode::ExecutableFile => {
                assert(tok =~= seq![49u8, 48u8, 48u8, 55u8, 53u8, 53u8]);
            },
            TreeEntryMode::Symlink => {
                assert(tok =~= seq![49u8, 50u8, 48u8, 48u8, 48u8, 48u8]);
            },
            TreeEntryMode::Directory => {
                assert(tok =~= seq![52u8, 48u8, 48u8, 48u8, 48u8]);
            },
        }
    }
}

/// Mode inference from filesystem metadata: a directory, else a symbolic link,
/// else an executable file when any executable permission bit is set, else a
/// normal file. `73` is the octal permission mask `111`.
pub open spec fn spec_mode_for(is_dir: bool, is_symlink: bool, permissions: u32) -> TreeEntryMode {
    if is_dir {
        TreeEntryMode::Directory
    } else if is_symlink {
        TreeEntryMode::Symlink
    } else if permissions & 73u32 != 0 {
        TreeEntryMode::ExecutableFile
    } else {
        TreeEntryMode::NormalFile
    }
}

impl TreeEntryMode {
    /// Whether this mode marks a directory entry.
    pub fn is_directory(self) -> (r: bool)
        ensures
            r == (self is Directory),
    {
        matches!(self, TreeEntryMode::Directory)
    }

    /// The ASCII octal mode token of this mode, as serialized into a tree.
    pub fn octal(self) -> (r: Vec<u8>)
        ensures
            r@ == mode_token(self),
    {
        let mut v: Vec<u8> = Vec::new();
        match self {
            TreeEntryMode::NormalFile => {
                v.push(49);
                v.push(48);
                v.push(48);
                v.push(54);
                v.push(52);
                v.push(52);
            },
            TreeEntryMode::ExecutableFile => {
                v.push(49);
                v.push(48);
                v.push(48);
                v.push(55);
                v.push(53);
                v.push(53);
            },
            TreeEntryMode::Symlink => {
                v.push(49);
                v.push(50);
                v.push(48);
                v.push(48);
                v.push(48);
                v.push(48);
            },
            TreeEntryMode::Directory => {
                v.push(52);
                v.push(48);
                v.push(48);
                v.push(48);
                v.push(48);
            },
        }
        proof {
            assert(v@ =~= mode_token(self));
        }
        v
    }

    /// Parse a mode token. Fails with `UnknownMode` exactly when `token` is
    /// not one of the four recognized octal values.
    pub fn try_from(token: &Vec<u8>) -> (r: Result<TreeEntryMode, GitError>)
        ensures
            match r {
                Ok(m) => mode_of_token(token@) == Some(m),
                Err(e) => mode_of_token(token@) is None && e == GitError::UnknownMode,
            },
    {
        let t = TreeEntryMode::NormalFile.octal();
        if bytes_eq(token, &t) {
            return Ok(TreeEntryMode::NormalFile);
        }
        let t = TreeEntryMode::ExecutableFile.octal();
        if bytes_eq(token, &t) {
            return Ok(TreeEntryMode::ExecutableFile);
        }
        let t = TreeEntryMode::Symlink.octal();
        if bytes_eq(token, &t) {
            return Ok(TreeEntryMode::Symlink);
        }
        let t = TreeEntryMode::Directory.octal();
        if bytes_eq(token, &t) {
            return Ok(TreeEntryMode::Directory);
        }
        Err(GitError::UnknownMode)
    }

    /// The mode for a directory child with the given filesystem metadata.
    pub fn mode_for(is_dir: bool, is_symlink: bool, permissions: u32) -> (r: TreeEntryMode)
        ensures
            r == spec_mode_for(is_dir, is_symlink, permissions),
    {
        if is_dir {
            TreeEntryMode::Directory
        } else if is_symlink {
            TreeEntryMode::Symlink
        } else if permissions & 73u32 != 0 {
            TreeEntryMode::ExecutableFile
        } else {
            TreeEntryMode::NormalFile
        }
    }
}

/// One line of a tree object's payload: a mode, raw name bytes, and the
/// 20-byte hash of the child object.
#[derive(Debug)]
pub struct TreeEntry {
    pub mode: TreeEntryMode,
    pub name: Vec<u8>,
    pub hash: Vec<u8>,
}

#[verifier::ext_equal]
pub struct TreeEntryView {
    pub mode: TreeEntryMode,
    pub name: Seq<u8>,
    pub hash: Seq<u8>,
}

impl View for TreeEntry {
    type V = TreeEntryView;

    open spec fn view(&self) -> TreeEntryView {
        TreeEntryView { mode: self.mode, name: self.name@, hash: self.hash@ }
    }
}

impl TreeEntry {
    pub fn new(mode: TreeEntryMode, name: Vec<u8>, hash: Vec<u8>) -> (r: Self)
        requires
            hash@.len() == 20,
        ensures
            r@ == (TreeEntryView { mode, name: name@, hash: hash@ }),
    {
        TreeEntry { mode, name, hash }
    }

    /// The kind of object this entry points at: a tree for a directory,
    /// a blob for everything else.
    pub fn object_type(&self) -> (r: &'static str)
        ensures
            self@.mode is Directory ==> r@ == "tree"@,
            !(self@.mode is Directory) ==> r@ == "blob"@,
    {
        match self.mode {
            TreeEntryMode::Directory => "tree",
            _ => "blob",
        }
    }
}

/// Two entries name the same slot of a directory: equal name bytes, and both
/// are directories or neither is.
pub open spec fn entry_same(a: TreeEntryView, b: TreeEntryView) -> bool {
    a.name == b.name && (a.mode is Directory <==> b.mode is Directory)
}

impl PartialEq for TreeEntry {
    fn eq(&self, other: &Self) -> (r: bool) {
        (self.mode.is_directory() == other.mode.is_directory()) && bytes_eq(
            &self.name,
            &other.name,
        )
    }
}

impl vstd::std_specs::cmp::PartialEqSpecImpl for TreeEntry {
    open spec fn obeys_eq_spec() -> bool {
        true
    }

    open spec fn eq_spec(&self, other: &Self) -> bool {
        entry_same(self@, other@)
    }
}

pub open spec fn byte_cmp(a: u8, b: u8) -> Ordering {
    if a < b {
        Ordering::Less
    } else if a == b {
        Ordering::Equal
    } else {
        Ordering::Greater
    }
}

pub open spec fn opt_byte_cmp(a: Option<u8>, b: Option<u8>) -> Ordering {
    match (a, b) {
        (None, None) => Ordering::Equal,
        (None, Some(_)) => Ordering::Less,
        (Some(_), None) => Ordering::Greater,
        (Some(x), Some(y)) => byte_cmp(x, y),
    }
}

/// The byte standing just past an exhausted or continuing name: the next name
/// byte if any, else a `/` when the entry is a directory, else nothing.
pub open spec fn head_or_slash(s: Seq<u8>, dir: bool) -> Option<u8> {
    if s.len() > 0 {
        Some(s[0])
    } else if dir {
        Some(47u8)
    } else {
        None
    }
}

/// Canonical tree order on entry names: names compare bytewise up to the
/// shorter length; on a tie the byte just past the shorter name decides, an
/// exhausted directory name standing for `/` and an exhausted file name for
/// nothing at all.
pub open spec fn name_cmp(a: Seq<u8>, adir: bool, b: Seq<u8>, bdir: bool) -> Ordering
    decreases a.len(),
{
    if a.len() > 0 && b.len() > 0 {
        if a[0] != b[0] {
            byte_cmp(a[0], b[0])
        } else {
            name_cmp(a.drop_first(), adir, b.drop_first(), bdir)
        }
    } else {
        opt_byte_cmp(head_or_slash(a, adir), head_or_slash(b, bdir))
    }
}

/// Canonical tree order on entries.
pub open spec fn entry_cmp(a: TreeEntryView, b: TreeEntryView) -> Ordering {
    name_cmp(a.name, a.mode is Directory, b.name, b.mode is Directory)
}

/// Name bytes contain no NUL, so a serialized entry can be framed again.
pub open spec fn nul_free(s: Seq<u8>) -> bool {
    forall|i: int| 0 <= i < s.len() ==> (#[trigger] s[i]) != 0
}

/// Name bytes contain no `/`. Any name a real directory listing yields
/// satisfies this; the entry order is total only over such names.
pub open spec fn slash_free(s: Seq<u8>) -> bool {
    forall|i: int| 0 <= i < s.len() ==> (#[trigger] s[i]) != 47
}

/// The entry can be serialized into a tree payload and parsed back:
/// a 20-byte hash and a NUL-free name.
pub open spec fn entry_parseable(e: TreeEntryView) -> bool {
    e.hash.len() == 20 && nul_free(e.name)
}

/// The entry could come from a real directory listing: parseable, and its
/// name contains no `/`.
pub open spec fn entry_fs(e: TreeEntryView) -> bool {
    entry_parseable(e) && slash_free(e.name)
}

/// The sort key of a name: the name itself, with `/` appended for a directory.
pub open spec fn entry_key(s: Seq<u8>, dir: bool) -> Seq<u8> {
    if dir {
        s.push(47u8)
    } else {
        s
    }
}

/// Plain lexicographic byte order. Over slash-free names, comparing entry keys
/// lexicographically is exactly the canonical entry order.
pub open spec fn lex_cmp(a: Seq<u8>, b: Seq<u8>) -> Ordering
    decreases a.len(),
{
    if a.len() == 0 && b.len() == 0 {
        Ordering::Equal
    } else if a.len() == 0 {
        Ordering::Less
    } else if b.len() == 0 {
        Ordering::Greater
    } else if a[0] != b[0] {
        byte_cmp(a[0], b[0])
    } else {
        lex_cmp(a.drop_first(), b.drop_first())
    }
}

/// Lexicographic comparison is `Equal` exactly on equal sequences.
pub proof fn lemma_lex_cmp_eq(a: Seq<u8>, b: Seq<u8>)
    ensures
        (lex_cmp(a, b) == Ordering::Equal) <==> (a == b),
    decreases a.len(),
{
    if a.len() > 0 && b.len() > 0 && a[0] == b[0] {
        lemma_lex_cmp_eq(a.drop_first(), b.drop_first());
        if lex_cmp(a, b) == Ordering::Equal {
            assert(a.drop_first() == b.drop_first());
            assert forall|i: int| 0 <= i < a.len() implies a[i] == b[i] by {
                if i > 0 {
                    assert(a[i] == a.drop_first()[i - 1]);
                    assert(b[i] == b.drop_first()[i - 1]);
                }
            }
            assert(a =~= b);
        }
        if a == b {
            assert(a.drop_first() =~= b.drop_first());
        }
    } else if a.len() == 0 && b.len() == 0 {
        assert(a =~= b);
    }
}

/// Swapping the arguments reverses the comparison.
pub proof fn lemma_lex_cmp_flip(a: Seq<u8>, b: Seq<u8>)
    ensures
        lex_cmp(b, a) == (match lex_cmp(a, b) {
            Ordering::Less => Ordering::Greater,
            Ordering::Equal => Ordering::Equal,
            Ordering::Greater => Ordering::Less,
        }),
    decreases a.len(),
{
    if a.len() > 0 && b.len() > 0 && a[0] == b[0] {
        lemma_lex_cmp_flip(a.drop_first(), b.drop_first());
    }
}

/// Lexicographic order is transitive.
pub proof fn lemma_lex_cmp_trans(a: Seq<u8>, b: Seq<u8>, c: Seq<u8>)
    requires
        lex_cmp(a, b) == Ordering::Less,
        lex_cmp(b, c) == Ordering::Less,
    ensures
        lex_cmp(a, c) == Ordering::Less,
    decreases a.len(),
{
    if a.len() == 0 {
        assert(b.len() > 0);
        assert(c.len() > 0);
    } else {
        assert(b.len() > 0);
        assert(c.len() > 0);
        if a[0] == b[0] && b[0] == c[0] {
            lemma_lex_cmp_trans(a.drop_first(), b.drop_first(), c.drop_first());
        }
    }
}

/// Over slash-free names, the canonical entry order is the lexicographic
/// order of the entries' keys.
pub proof fn lemma_name_cmp_keys(a: Seq<u8>, adir: bool, b: Seq<u8>, bdir: bool)
    requires
        slash_free(a),
        slash_free(b),
    ensures
        name_cmp(a, adir, b, bdir) == lex_cmp(entry_key(a, adir), entry_key(b, bdir)),
    decreases a.len(),
{
    reveal_with_fuel(lex_cmp, 3);
    let ka = entry_key(a, adir);
    let kb = entry_key(b, bdir);
    if a.len() > 0 && b.len() > 0 {
        assert(ka[0] == a[0]);
        assert(kb[0] == b[0]);
        if a[0] == b[0] {
            assert(slash_free(a.drop_first())) by {
                assert forall|i: int| 0 <= i < a.drop_first().len() implies (#[trigger] a.drop_first()[i]) != 47 by {
                    assert(a.drop_first()[i] == a[i + 1]);
                }
            }
            assert(slash_free(b.drop_first())) by {
                assert forall|i: int| 0 <= i < b.drop_first().len() implies (#[trigger] b.drop_first()[i]) != 47 by {
                    assert(b.drop_first()[i] == b[i + 1]);
                }
            }
            lemma_name_cmp_keys(a.drop_first(), adir, b.drop_first(), bdir);
            assert(ka.drop_first() =~= entry_key(a.drop_first(), adir));
            assert(kb.drop_first() =~= entry_key(b.drop_first(), bdir));
        }
    } else if a.len() == 0 && b.len() == 0 {
        if adir {
            assert(ka =~= seq![47u8]);
        }
        if bdir {
            assert(kb =~= seq![47u8]);
        }
    } else if a.len() == 0 {
        assert(kb[0] == b[0]);
        assert(b[0] != 47);
        if adir {
            assert(ka =~= seq![47u8]);
        }
    } else {
        assert(ka[0] == a[0]);
        assert(a[0] != 47);
        if bdir {
            assert(kb =~= seq![47u8]);
        }
    }
}

/// The canonical entry order is transitive over filesystem names.
pub proof fn lemma_entry_cmp_trans(a: TreeEntryView, b: TreeEntryView, c: TreeEntryView)
    requires
        slash_free(a.name),
        slash_free(b.name),
        slash_free(c.name),
        entry_cmp(a, b) == Ordering::Less,
        entry_cmp(b, c) == Ordering::Less,
    ensures
        entry_cmp(a, c) == Ordering::Less,
{
    lemma_name_cmp_keys(a.name, a.mode is Directory, b.name, b.mode is Directory);
    lemma_name_cmp_keys(b.name, b.mode is Directory, c.name, c.mode is Directory);
    lemma_name_cmp_keys(a.name, a.mode is Directory, c.name, c.mode is Directory);
    lemma_lex_cmp_trans(
        entry_key(a.name, a.mode is Directory),
        entry_key(b.name, b.mode is Directory),
        entry_key(c.name, c.mode is Directory),
    );
}

/// Swapping the entries reverses the canonical order, over filesystem names.
pub proof fn lemma_entry_cmp_flip(a: TreeEntryView, b: TreeEntryView)
    requires
        slash_free(a.name),
        slash_free(b.name),
    ensures
        entry_cmp(b, a) == (match entry_cmp(a, b) {
            Ordering::Less => Ordering::Greater,
            Ordering::Equal => Ordering::Equal,
            Ordering::Greater => Ordering::Less,
        }),
{
    lemma_name_cmp_keys(a.name, a.mode is Directory, b.name, b.mode is Directory);
    lemma_name_cmp_keys(b.name, b.mode is Directory, a.name, a.mode is Directory);
    lemma_lex_cmp_flip(
        entry_key(a.name, a.mode is Directory),
        entry_key(b.name, b.mode is Directory),
    );
}

/// Over filesystem names, two entries compare `Equal` exactly when they name
/// the same slot: equal names, both directories or neither.
pub proof fn lemma_entry_cmp_equal_same(a: TreeEntryView, b: TreeEntryView)
    requires
        slash_free(a.name),
        slash_free(b.name),
    ensures
        (entry_cmp(a, b) == Ordering::Equal) <==> entry_same(a, b),
{
    let adir = a.mode is Directory;
    let bdir = b.mode is Directory;
    let ka = entry_key(a.name, adir);
    let kb = entry_key(b.name, bdir);
    lemma_name_cmp_keys(a.name, adir, b.name, bdir);
    lemma_lex_cmp_eq(ka, kb);
    if ka == kb {
        if adir && bdir {
            assert(a.name =~= ka.drop_last());
            assert(b.name =~= kb.drop_last());
        } else if adir && !bdir {
            assert(kb.len() > 0);
            assert(b.name.len() > 0);
            assert(ka.last() == 47);
            assert(kb.last() == b.name[b.name.len() - 1]);
            assert(false);
        } else if !adir && bdir {
            assert(ka.len() > 0);
            assert(a.name.len() > 0);
            assert(kb.last() == 47);
            assert(ka.last() == a.name[a.name.len() - 1]);
            assert(false);
        }
    }
    if entry_same(a, b) {
        assert(ka =~= kb);
    }
}

impl TreeEntry {
    /// Compare two entries in canonical tree order.
    pub fn cmp(&self, other: &Self) -> (r: Ordering)
        ensures
            r == entry_cmp(self@, other@),
    {
        let ghost d1 = self@.mode is Directory;
        let ghost d2 = other@.mode is Directory;
        let min: usize = if self.name.len() < other.name.len() {
            self.name.len()
        } else {
            other.name.len()
        };
        let mut i: usize = 0;
        proof {
            assert(self@.name.skip(0) =~= self@.name);
            assert(other@.name.skip(0) =~= other@.name);
        }
        while i < min
            invariant
                0 <= i <= min,
                min <= self@.name.len(),
                min <= other@.name.len(),
                min == self@.name.len() || min == other@.name.len(),
                d1 == (self@.mode is Directory),
                d2 == (other@.mode is Directory),
                entry_cmp(self@, other@) == name_cmp(
                    self@.name.skip(i as int),
                    d1,
                    other@.name.skip(i as int),
                    d2,
                ),
            decreases min - i,
        {
            let x = self.name[i];
            let y = other.name[i];
            proof {
                assert(self@.name.skip(i as int)[0] == x);
                assert(other@.name.skip(i as int)[0] == y);
            }
            if x < y {
                return Ordering::Less;
            }
            if x > y {
                return Ordering::Greater;
            }
            proof {
                assert(self@.name.skip(i as int).drop_first() =~= self@.name.skip(i as int + 1));
                assert(other@.name.skip(i as int).drop_first() =~= other@.name.skip(i as int + 1));
            }
            i = i + 1;
        }
        let c1: Option<u8> = if i < self.name.len() {
            Some(self.name[i])
        } else if self.mode.is_directory() {
            Some(47)
        } else {
            None
        };
        let c2: Option<u8> = if i < other.name.len() {
            Some(other.name[i])
        } else if other.mode.is_directory() {
            Some(47)
        } else {
            None
        };
        proof {
            assert(head_or_slash(self@.name.skip(i as int), d1) == c1);
            assert(head_or_slash(other@.name.skip(i as int), d2) == c2);
            assert(!(self@.name.skip(i as int).len() > 0 && other@.name.skip(i as int).len() > 0));
        }
        match (c1, c2) {
            (None, None) => Ordering::Equal,
            (None, Some(_)) => Ordering::Less,
            (Some(_), None) => Ordering::Greater,
            (Some(x), Some(y)) => {
                if x < y {
                    Ordering::Less
                } else if x == y {
                    Ordering::Equal
                } else {
                    Ordering::Greater
                }
            },
        }
    }
}

} // verus!
