//! The store: an append-only, content-addressed repository binding package
//! identities to artifact hashes and artifact hashes to directory contents.
//!
//! Artifacts are named by a 256-bit digest of their directory's canonical
//! serialization: every regular file contributes its path, big-endian
//! encodings of its permission mode, group id, user id and length, and its
//! contents, in directory-walk order.

use vstd::prelude::*;

use crate::package::{clone_string, Package, PackageId};

verus! {

/// The digest an outside hash function assigns to a byte string.  It is a
/// function of the input bytes alone.
pub uninterp spec fn blake3_of(bytes: Seq<u8>) -> Seq<u8>;

/// Relies on blake3::hash: a 256-bit digest computed from the input bytes
/// alone; the output is always 32 bytes.
#[verifier::external_body]
fn blake3_hash(input: &Vec<u8>) -> (r: Vec<u8>)
    ensures
        r@ == blake3_of(input@),
        r@.len() == 32,
{
    blake3::hash(input.as_slice()).as_bytes().to_vec()
}

/// Copy a byte vector.
pub fn clone_bytes(v: &Vec<u8>) -> (r: Vec<u8>)
    ensures
        r@ == v@,
{
    let mut r: Vec<u8> = Vec::new();
    let mut i: usize = 0;
    while i < v.len()
        invariant
            i <= v@.len(),
            r@ == v@.take(i as int),
        decreases v@.len() - i,
    {
        r.push(v[i]);
        proof {
            assert(v@.take(i as int + 1) =~= v@.take(i as int).push(v@[i as int]));
        }
        i = i + 1;
    }
    proof {
        assert(v@.take(v@.len() as int) =~= v@);
    }
    r
}

/// A 256-bit content hash naming an artifact.
#[derive(Debug)]
pub struct ArtifactId {
    pub bytes: Vec<u8>,
}

impl ArtifactId {
    /// A valid identifier holds exactly 32 bytes.
    pub open spec fn wf(self) -> bool {
        self.bytes@.len() == 32
    }

    /// Value equality of identifiers.
    pub fn eq_to(&self, other: &ArtifactId) -> (r: bool)
        ensures
            r == (self.bytes@ == other.bytes@),
    {
        bytes_eq(&self.bytes, &other.bytes)
    }

    /// Clone the identifier, keeping its value.
    pub fn duplicate(&self) -> (r: ArtifactId)
        ensures
            r.bytes@ == self.bytes@,
    {
        ArtifactId { bytes: clone_bytes(&self.bytes) }
    }

    /// The lower-case hexadecimal rendering of an identifier's bytes.
    pub open spec fn spec_hex(bytes: Seq<u8>) -> Seq<char>
        decreases bytes.len(),
    {
        if bytes.len() == 0 {
            Seq::empty()
        } else {
            Self::spec_hex(bytes.drop_last()) + seq![
                hex_digit((bytes.last() >> 4) as nat),
                hex_digit((bytes.last() & 0x0f) as nat),
            ]
        }
    }

    /// Render the identifier as lower-case hexadecimal digits.
    pub fn to_hex(&self) -> (r: String)
        ensures
            r@ == Self::spec_hex(self.bytes@),
    {
        let digits = hex_digits();
        let mut r = String::new();
        let mut i: usize = 0;
        while i < self.bytes.len()
            invariant
                i <= self.bytes@.len(),
                digits@.len() == 16,
                forall|d: int| 0 <= d < 16 ==> (#[trigger] digits@[d])@ == seq![hex_digit(d as nat)],
                r@ == Self::spec_hex(self.bytes@.take(i as int)),
            decreases self.bytes@.len() - i,
        {
            let b = self.bytes[i];
            let hi = (b >> 4) as usize;
            let lo = (b & 0x0f) as usize;
            proof {
                assert(b >> 4 < 16 && b & 0x0f < 16) by (bit_vector);
                assert(self.bytes@.take(i as int + 1).drop_last() =~= self.bytes@.take(i as int));
                assert(self.bytes@.take(i as int + 1).last() == self.bytes@[i as int]);
            }
            r.append(digits[hi].as_str());
            r.append(digits[lo].as_str());
            i = i + 1;
        }
        proof {
            assert(self.bytes@.take(self.bytes@.len() as int) =~= self.bytes@);
        }
        r
    }
}

/// The sixteen hexadecimal digit characters, least to greatest.
pub open spec fn hex_digit(d: nat) -> char {
    seq!['0', '1', '2', '3', '4', '5', '6', '7', '8', '9', 'a', 'b', 'c', 'd', 'e', 'f'][d as int]
}

/// One single-character string per hexadecimal digit.
fn hex_digits() -> (r: Vec<String>)
    ensures
        r@.len() == 16,
        forall|d: int| 0 <= d < 16 ==> (#[trigger] r@[d])@ == seq![hex_digit(d as nat)],
{
    proof {
        reveal_strlit("0");
        reveal_strlit("1");
        reveal_strlit("2");
        reveal_strlit("3");
        reveal_strlit("4");
        reveal_strlit("5");
        reveal_strlit("6");
        reveal_strlit("7");
        reveal_strlit("8");
        reveal_strlit("9");
        reveal_strlit("a");
        reveal_strlit("b");
        reveal_strlit("c");
        reveal_strlit("d");
        reveal_strlit("e");
        reveal_strlit("f");
    }
    let mut r: Vec<String> = Vec::new();
    r.push("0".to_owned());
    r.push("1".to_owned());
    r.push("2".to_owned());
    r.push("3".to_owned());
    r.push("4".to_owned());
    r.push("5".to_owned());
    r.push("6".to_owned());
    r.push("7".to_owned());
    r.push("8".to_owned());
    r.push("9".to_owned());
    r.push("a".to_owned());
    r.push("b".to_owned());
    r.push("c".to_owned());
    r.push("d".to_owned());
    r.push("e".to_owned());
    r.push("f".to_owned());
    r
}

/// Value equality of byte vectors.
pub fn bytes_eq(a: &Vec<u8>, b: &Vec<u8>) -> (r: bool)
    ensures
        r == (a@ == b@),
{
    if a.len() != b.len() {
        return false;
    }
    let mut i: usize = 0;
    while i < a.len()
        invariant
            i <= a@.len(),
            a@.len() == b@.len(),
            forall|j: int| 0 <= j < i ==> a@[j] == b@[j],
        decreases a@.len() - i,
    {
        if a[i] != b[i] {
            return false;
        }
        i = i + 1;
    }
    proof {
        assert(a@ =~= b@);
    }
    true
}

/// One regular file of an artifact directory: its path relative to the
/// root (as bytes), its permission mode, owning group and user, and its
/// contents.
#[derive(Debug)]
pub struct DirEntry {
    pub path: Vec<u8>,
    pub mode: u32,
    pub gid: u32,
    pub uid: u32,
    pub contents: Vec<u8>,
}

/// An artifact's content: its regular files, in canonical (sorted) walk
/// order.  Symbolic links and other non-regular entries are not part of
/// the canonical form.
#[derive(Debug)]
pub struct DirTree {
    pub entries: Vec<DirEntry>,
}

/// Big-endian bytes of a 32-bit value.
pub open spec fn be32(x: u32) -> Seq<u8> {
    seq![
        ((x >> 24) & 0xff) as u8,
        ((x >> 16) & 0xff) as u8,
        ((x >> 8) & 0xff) as u8,
        (x & 0xff) as u8,
    ]
}

/// Big-endian bytes of a 64-bit value.
pub open spec fn be64(x: u64) -> Seq<u8> {
    seq![
        ((x >> 56) & 0xff) as u8,
        ((x >> 48) & 0xff) as u8,
        ((x >> 40) & 0xff) as u8,
        ((x >> 32) & 0xff) as u8,
        ((x >> 24) & 0xff) as u8,
        ((x >> 16) & 0xff) as u8,
        ((x >> 8) & 0xff) as u8,
        (x & 0xff) as u8,
    ]
}

/// What one file feeds into the hasher: path, mode, group, user, length,
/// contents.
pub open spec fn spec_entry_bytes(e: DirEntry) -> Seq<u8> {
    e.path@ + be32(e.mode) + be32(e.gid) + be32(e.uid) + be64(e.contents@.len() as u64)
        + e.contents@
}

/// The canonical serialization of a directory: each file's record in walk
/// order.
pub open spec fn spec_dir_bytes(entries: Seq<DirEntry>) -> Seq<u8>
    decreases entries.len(),
{
    if entries.len() == 0 {
        Seq::empty()
    } else {
        spec_dir_bytes(entries.drop_last()) + spec_entry_bytes(entries.last())
    }
}

/// Append the big-endian bytes of `x` to `out`.
fn push_be32(out: &mut Vec<u8>, x: u32)
    ensures
        final(out)@ == old(out)@ + be32(x),
{
    out.push(((x >> 24) & 0xff) as u8);
    out.push(((x >> 16) & 0xff) as u8);
    out.push(((x >> 8) & 0xff) as u8);
    out.push((x & 0xff) as u8);
    proof {
        assert(final(out)@ =~= old(out)@ + be32(x));
    }
}

/// Append the big-endian bytes of `x` to `out`.
fn push_be64(out: &mut Vec<u8>, x: u64)
    ensures
        final(out)@ == old(out)@ + be64(x),
{
    out.push(((x >> 56) & 0xff) as u8);
    out.push(((x >> 48) & 0xff) as u8);
    out.push(((x >> 40) & 0xff) as u8);
    out.push(((x >> 32) & 0xff) as u8);
    out.push(((x >> 24) & 0xff) as u8);
    out.push(((x >> 16) & 0xff) as u8);
    out.push(((x >> 8) & 0xff) as u8);
    out.push((x & 0xff) as u8);
    proof {
        assert(final(out)@ =~= old(out)@ + be64(x));
    }
}

/// Append every byte of `v` to `out`.
fn push_bytes(out: &mut Vec<u8>, v: &Vec<u8>)
    ensures
        final(out)@ == old(out)@ + v@,
{
    let mut i: usize = 0;
    while i < v.len()
        invariant
            i <= v@.len(),
            out@ == old(out)@ + v@.take(i as int),
        decreases v@.len() - i,
    {
        out.push(v[i]);
        proof {
            assert(old(out)@ + v@.take(i as int + 1) =~= (old(out)@ + v@.take(i as int)).push(
                v@[i as int],
            ));
        }
        i = i + 1;
    }
    proof {
        assert(v@.take(v@.len() as int) =~= v@);
    }
}

/// Hash a directory's canonical serialization.
///
/// The result is the digest of the concatenation, in walk order, of every
/// file's record: path bytes, big-endian mode, group id, user id and
/// length, then the file contents.
pub fn hash_directory(dir: &DirTree) -> (r: ArtifactId)
    ensures
        r.wf(),
        r.bytes@ == blake3_of(spec_dir_bytes(dir.entries@)),
{
    let mut buf: Vec<u8> = Vec::new();
    let mut i: usize = 0;
    while i < dir.entries.len()
        invariant
            i <= dir.entries@.len(),
            buf@ == spec_dir_bytes(dir.entries@.take(i as int)),
        decreases dir.entries@.len() - i,
    {
        let e = &dir.entries[i];
        push_bytes(&mut buf, &e.path);
        push_be32(&mut buf, e.mode);
        push_be32(&mut buf, e.gid);
        push_be32(&mut buf, e.uid);
        let clen = e.contents.len();
        push_be64(&mut buf, clen as u64);
        push_bytes(&mut buf, &e.contents);
        proof {
            assert(dir.entries@.take(i as int + 1).drop_last() =~= dir.entries@.take(i as int));
            assert(dir.entries@.take(i as int + 1).last() == dir.entries@[i as int]);
            assert(buf@ =~= spec_dir_bytes(dir.entries@.take(i as int)) + spec_entry_bytes(
                dir.entries@[i as int],
            ));
        }
        i = i + 1;
    }
    proof {
        assert(dir.entries@.take(dir.entries@.len() as int) =~= dir.entries@);
    }
    let digest = blake3_hash(&buf);
    ArtifactId { bytes: digest }
}

/// Law: directory hashing is deterministic; identical directory contents
/// always receive the same artifact identifier.
pub proof fn lemma_hash_directory_deterministic(d1: &DirTree, d2: &DirTree)
    requires
        d1.entries@ == d2.entries@,
    ensures
        blake3_of(spec_dir_bytes(d1.entries@)) == blake3_of(spec_dir_bytes(d2.entries@)),
{
}

/// The byte encodings of a list of rendered identifiers, each
/// length-prefixed.
pub open spec fn spec_dep_bytes(items: Seq<Seq<u8>>) -> Seq<u8>
    decreases items.len(),
{
    if items.len() == 0 {
        Seq::empty()
    } else {
        spec_dep_bytes(items.drop_last()) + be64(items.last().len() as u64) + items.last()
    }
}

/// The byte encodings of a vector of strings.
pub open spec fn rendered_items(v: Seq<String>) -> Seq<Seq<u8>> {
    Seq::new(v.len(), |i: int| vstd::utf8::encode_utf8(v[i]@))
}

/// The bytes whose digest is a package's structural key: the rendered
/// identifier, the current configuration value and the resolved
/// dependency identifiers, each length-prefixed.
pub open spec fn spec_key_bytes(
    id_bytes: Seq<u8>,
    config_bytes: Seq<u8>,
    dep_items: Seq<Seq<u8>>,
) -> Seq<u8> {
    be64(id_bytes.len() as u64) + id_bytes + be64(config_bytes.len() as u64) + config_bytes
        + be64(dep_items.len() as u64) + spec_dep_bytes(dep_items)
}

/// The structural key of a package: the digest of its rendered
/// identifier, its current configuration value and its resolved
/// dependency identifiers.  Two packages share a key exactly when the
/// hasher maps their canonical encodings together.
pub fn package_key(pkg: &Package, dep_ids: &Vec<String>) -> (r: Vec<u8>)
    ensures
        r@ == blake3_of(
            spec_key_bytes(
                vstd::utf8::encode_utf8(pkg.id.spec_render()),
                vstd::utf8::encode_utf8(pkg.config@),
                rendered_items(dep_ids@),
            ),
        ),
        r@.len() == 32,
{
    let rendered = pkg.id.render();
    let id_bytes = rendered.as_str().as_bytes();
    let config_bytes = pkg.config.as_str().as_bytes();
    let mut buf: Vec<u8> = Vec::new();
    push_be64(&mut buf, id_bytes.len() as u64);
    push_slice(&mut buf, id_bytes);
    push_be64(&mut buf, config_bytes.len() as u64);
    push_slice(&mut buf, config_bytes);
    let ghost head = buf@;
    proof {
        assert(head =~= be64(id_bytes@.len() as u64) + id_bytes@ + be64(
            config_bytes@.len() as u64,
        ) + config_bytes@);
    }
    push_be64(&mut buf, dep_ids.len() as u64);
    let mut k: usize = 0;
    while k < dep_ids.len()
        invariant
            k <= dep_ids@.len(),
            head == be64(id_bytes@.len() as u64) + id_bytes@ + be64(config_bytes@.len() as u64)
                + config_bytes@,
            id_bytes@ == vstd::utf8::encode_utf8(pkg.id.spec_render()),
            config_bytes@ == vstd::utf8::encode_utf8(pkg.config@),
            buf@ == head + be64(dep_ids@.len() as u64) + spec_dep_bytes(
                rendered_items(dep_ids@).take(k as int),
            ),
        decreases dep_ids@.len() - k,
    {
        let item = dep_ids[k].as_str().as_bytes();
        push_be64(&mut buf, item.len() as u64);
        push_slice(&mut buf, item);
        proof {
            let ri = rendered_items(dep_ids@);
            assert(ri.take(k as int + 1).drop_last() =~= ri.take(k as int));
            assert(ri.take(k as int + 1).last() == ri[k as int]);
            assert(item@ == ri[k as int]);
            assert(buf@ =~= head + be64(dep_ids@.len() as u64) + spec_dep_bytes(
                ri.take(k as int + 1),
            ));
        }
        k = k + 1;
    }
    proof {
        let ri = rendered_items(dep_ids@);
        assert(ri.take(ri.len() as int) =~= ri);
        assert(buf@ =~= spec_key_bytes(
            vstd::utf8::encode_utf8(pkg.id.spec_render()),
            vstd::utf8::encode_utf8(pkg.config@),
            ri,
        ));
    }
    blake3_hash(&buf)
}

/// Append every byte of `v` to `out`.
fn push_slice(out: &mut Vec<u8>, v: &[u8])
    ensures
        final(out)@ == old(out)@ + v@,
{
    let mut i: usize = 0;
    while i < v.len()
        invariant
            i <= v@.len(),
            out@ == old(out)@ + v@.take(i as int),
        decreases v@.len() - i,
    {
        out.push(v[i]);
        proof {
            assert(old(out)@ + v@.take(i as int + 1) =~= (old(out)@ + v@.take(i as int)).push(
                v@[i as int],
            ));
        }
        i = i + 1;
    }
    proof {
        assert(v@.take(v@.len() as int) =~= v@);
    }
}

/// A binding of a package identity to an artifact, stamped with the moment
/// of its registration and the package's structural key.
#[derive(Debug)]
pub struct StorePackage {
    pub package: PackageId,
    pub key: Vec<u8>,
    pub artifact: ArtifactId,
    pub created_at: u64,
}

impl StorePackage {
    /// Clone the binding, keeping its value.
    pub fn duplicate(&self) -> (r: StorePackage)
        ensures
            r.package@ == self.package@,
            r.key@ == self.key@,
            r.artifact.bytes@ == self.artifact.bytes@,
            r.created_at == self.created_at,
    {
        StorePackage {
            package: self.package.duplicate(),
            key: clone_bytes(&self.key),
            artifact: self.artifact.duplicate(),
            created_at: self.created_at,
        }
    }
}

/// A registered artifact, stamped with the moment of its registration.
#[derive(Debug)]
pub struct StoreArtifact {
    pub artifact: ArtifactId,
    pub created_at: u64,
}

/// The error vocabulary of fallible store backends.  The in-memory store
/// never fails; an on-disk backend maps an absent row onto these, and the
/// builder treats either as a cache miss.
#[derive(Debug)]
pub enum StoreError {
    /// No binding is registered under the queried package identity.
    PackageNotFound(PackageId),
    /// No artifact is registered under the queried hash.
    ArtifactNotFound(ArtifactId),
}

/// The package bindings whose identity renders to `idv`, most recent
/// first.
pub open spec fn bindings_for(s: Seq<StorePackage>, idv: (Seq<char>, Seq<Seq<char>>)) -> Seq<
    StorePackage,
>
    decreases s.len(),
{
    if s.len() == 0 {
        Seq::empty()
    } else {
        (if s.last().package@ == idv {
            seq![s.last()]
        } else {
            Seq::empty()
        }) + bindings_for(s.drop_last(), idv)
    }
}

/// An append-only, content-addressed repository of artifacts and package
/// bindings, serving as the build cache.
pub struct Store {
    pub artifacts: Vec<StoreArtifact>,
    pub contents: Vec<DirTree>,
    pub packages: Vec<StorePackage>,
    pub clock: u64,
}

impl Store {
    /// Some artifact with hash `h` is registered.
    pub open spec fn has_artifact(self, h: Seq<u8>) -> bool {
        exists|i: int|
            0 <= i < self.artifacts@.len() && (#[trigger] self.artifacts@[i]).artifact.bytes@ == h
    }

    /// Invariant: artifact records and contents run in parallel, every
    /// record's hash is the digest of its content's canonical
    /// serialization, no hash repeats, and registration stamps never
    /// decrease along the binding table (nor run ahead of the clock).
    pub open spec fn wf(self) -> bool {
        &&& self.artifacts@.len() == self.contents@.len()
        &&& forall|i: int|
            0 <= i < self.artifacts@.len() ==> (#[trigger] self.artifacts@[i]).artifact.wf() && self.artifacts@[i].artifact.bytes@
                == blake3_of(spec_dir_bytes(self.contents@[i].entries@))
        &&& forall|i: int, j: int|
            0 <= i < self.artifacts@.len() && 0 <= j < self.artifacts@.len() && i != j ==> (
            #[trigger] self.artifacts@[i]).artifact.bytes@ != (
            #[trigger] self.artifacts@[j]).artifact.bytes@
        &&& forall|i: int, j: int|
            0 <= i < j < self.packages@.len() ==> (#[trigger] self.packages@[i]).created_at <= (
            #[trigger] self.packages@[j]).created_at
        &&& forall|i: int|
            0 <= i < self.packages@.len() ==> (#[trigger] self.packages@[i]).created_at
                <= self.clock
    }

    /// An empty store.
    pub fn new() -> (r: Store)
        ensures
            r.wf(),
            r.artifacts@.len() == 0,
            r.packages@.len() == 0,
    {
        Store { artifacts: Vec::new(), contents: Vec::new(), packages: Vec::new(), clock: 0 }
    }

    /// The index of the registered artifact with hash `h`, if any.
    fn find_artifact(&self, h: &ArtifactId) -> (r: Option<usize>)
        ensures
            match r {
                Some(i) => i < self.artifacts@.len() && self.artifacts@[i as int].artifact.bytes@
                    == h.bytes@,
                None => !self.has_artifact(h.bytes@),
            },
    {
        let mut i: usize = 0;
        while i < self.artifacts.len()
            invariant
                i <= self.artifacts@.len(),
                forall|j: int|
                    0 <= j < i ==> (#[trigger] self.artifacts@[j]).artifact.bytes@ != h.bytes@,
            decreases self.artifacts@.len() - i,
        {
            if self.artifacts[i].artifact.eq_to(h) {
                return Some(i);
            }
            i = i + 1;
        }
        None
    }

    /// Advance the registration clock, saturating at its maximum.
    fn tick(&mut self) -> (t: u64)
        ensures
            t == old(self).clock,
            final(self).clock >= old(self).clock,
            final(self).artifacts == old(self).artifacts,
            final(self).contents == old(self).contents,
            final(self).packages == old(self).packages,
    {
        let t = self.clock;
        if self.clock < u64::MAX {
            self.clock = self.clock + 1;
        }
        t
    }

    /// Register a directory as an artifact.
    ///
    /// Returns the digest of the directory's canonical serialization.  A
    /// hash already present is a no-op returning the existing identifier
    /// and retaining the existing content; otherwise the content is
    /// adopted under the new hash.
    pub fn register_artifact(&mut self, content: DirTree) -> (r: ArtifactId)
        requires
            old(self).wf(),
        ensures
            final(self).wf(),
            r.wf(),
            r.bytes@ == blake3_of(spec_dir_bytes(content.entries@)),
            final(self).has_artifact(r.bytes@),
            final(self).packages == old(self).packages,
            if old(self).has_artifact(r.bytes@) {
                &&& final(self).artifacts == old(self).artifacts
                &&& final(self).contents == old(self).contents
                &&& final(self).clock == old(self).clock
            } else {
                &&& final(self).artifacts@.len() == old(self).artifacts@.len() + 1
                &&& final(self).artifacts@.last().artifact.bytes@ == r.bytes@
                &&& final(self).contents@ == old(self).contents@.push(content)
                &&& forall|i: int|
                    0 <= i < old(self).artifacts@.len() ==> final(self).artifacts@[i] == old(
                        self,
                    ).artifacts@[i]
            },
    {
        let h = hash_directory(&content);
        match self.find_artifact(&h) {
            Some(_) => h,
            None => {
                let t = self.tick();
                let record = StoreArtifact { artifact: h.duplicate(), created_at: t };
                self.artifacts.push(record);
                self.contents.push(content);
                proof {
                    assert(final(self).artifacts@.last().artifact.bytes@ == h.bytes@);
                    assert forall|i: int, j: int|
                        0 <= i < self.artifacts@.len() && 0 <= j < self.artifacts@.len() && i
                            != j implies (#[trigger] self.artifacts@[i]).artifact.bytes@ != (
                    #[trigger] self.artifacts@[j]).artifact.bytes@ by {
                        if i == self.artifacts@.len() - 1 {
                            assert(!old(self).has_artifact(h.bytes@));
                        } else if j == self.artifacts@.len() - 1 {
                            assert(!old(self).has_artifact(h.bytes@));
                        }
                    }
                    assert(final(self).has_artifact(h.bytes@)) by {
                        assert(final(self).artifacts@[final(self).artifacts@.len() - 1]
                            .artifact.bytes@ == h.bytes@);
                    }
                }
                h
            },
        }
    }

    /// Register a binding of a package to an artifact.
    ///
    /// The binding records the package's structural key over its identity,
    /// configuration and resolved dependency identifiers.  Registering an
    /// identical binding again is a no-op returning the existing record.
    pub fn register_package(
        &mut self,
        package: &Package,
        dep_ids: &Vec<String>,
        artifact: &ArtifactId,
    ) -> (r: StorePackage)
        requires
            old(self).wf(),
        ensures
            final(self).wf(),
            final(self).artifacts == old(self).artifacts,
            final(self).contents == old(self).contents,
            r.package@ == package.id@,
            r.artifact.bytes@ == artifact.bytes@,
            r.key@ == blake3_of(
                spec_key_bytes(
                    vstd::utf8::encode_utf8(package.id.spec_render()),
                    vstd::utf8::encode_utf8(package.config@),
                    rendered_items(dep_ids@),
                ),
            ),
            exists|i: int|
                0 <= i < final(self).packages@.len() && (#[trigger] final(self).packages@[i])
                    .package@ == package.id@ && final(self).packages@[i].key@ == r.key@
                    && final(self).packages@[i].artifact.bytes@ == artifact.bytes@
                    && final(self).packages@[i].created_at == r.created_at,
            if exists|i: int|
                0 <= i < old(self).packages@.len() && (#[trigger] old(self).packages@[i]).package@
                    == package.id@ && old(self).packages@[i].key@ == r.key@
                    && old(self).packages@[i].artifact.bytes@ == artifact.bytes@ {
                final(self).packages == old(self).packages
            } else {
                final(self).packages@.len() == old(self).packages@.len() + 1
                    && final(self).packages@.last().created_at == old(self).clock
                    && r.created_at == old(self).clock && forall|i: int|
                    0 <= i < old(self).packages@.len() ==> final(self).packages@[i] == old(
                        self,
                    ).packages@[i]
            },
    {
        let key = package_key(package, dep_ids);
        let mut i: usize = 0;
        while i < self.packages.len()
            invariant
                *self == *old(self),
                self.wf(),
                i <= self.packages@.len(),
                key@ == blake3_of(
                    spec_key_bytes(
                        vstd::utf8::encode_utf8(package.id.spec_render()),
                        vstd::utf8::encode_utf8(package.config@),
                        rendered_items(dep_ids@),
                    ),
                ),
                forall|j: int|
                    0 <= j < i ==> !((#[trigger] self.packages@[j]).package@ == package.id@
                        && self.packages@[j].key@ == key@ && self.packages@[j].artifact.bytes@
                        == artifact.bytes@),
            decreases self.packages@.len() - i,
        {
            let p = &self.packages[i];
            if p.package.eq_to(&package.id) && bytes_eq(&p.key, &key) && p.artifact.eq_to(artifact)
            {
                return self.packages[i].duplicate();
            }
            i = i + 1;
        }
        let t = self.tick();
        let record = StorePackage {
            package: package.id.duplicate(),
            key,
            artifact: artifact.duplicate(),
            created_at: t,
        };
        let r = record.duplicate();
        self.packages.push(record);
        proof {
            assert(final(self).packages@.last().package@ == package.id@);
        }
        r
    }

    /// The bindings registered under `id`, most recent first: their
    /// registration stamps never increase along the result.
    pub fn packages_of(&self, id: &PackageId) -> (r: Vec<StorePackage>)
        requires
            self.wf(),
        ensures
            forall|i: int, j: int|
                0 <= i < j < r@.len() ==> (#[trigger] r@[i]).created_at >= (
                #[trigger] r@[j]).created_at,
            r@.len() == bindings_for(self.packages@, id@).len(),
            forall|i: int|
                0 <= i < r@.len() ==> (#[trigger] r@[i]).package@ == bindings_for(
                    self.packages@,
                    id@,
                )[i].package@ && r@[i].key@ == bindings_for(self.packages@, id@)[i].key@
                    && r@[i].artifact.bytes@ == bindings_for(self.packages@, id@)[i].artifact.bytes@
                    && r@[i].created_at == bindings_for(self.packages@, id@)[i].created_at,
    {
        let ghost all = bindings_for(self.packages@, id@);
        let mut r: Vec<StorePackage> = Vec::new();
        let mut i: usize = self.packages.len();
        proof {
            assert(self.packages@.take(self.packages@.len() as int) =~= self.packages@);
            assert(all.skip(0) =~= all);
        }
        while i > 0
            invariant
                i <= self.packages@.len(),
                all == bindings_for(self.packages@, id@),
                r@.len() <= all.len(),
                bindings_for(self.packages@.take(i as int), id@) == all.skip(r@.len() as int),
                forall|j: int|
                    0 <= j < r@.len() ==> (#[trigger] r@[j]).package@ == all[j].package@
                        && r@[j].key@ == all[j].key@ && r@[j].artifact.bytes@ == all[
                        j
                    ].artifact.bytes@ && r@[j].created_at == all[j].created_at,
            decreases i,
        {
            i = i - 1;
            proof {
                lemma_bindings_take_step(self.packages@, id@, i as int);
            }
            let p = &self.packages[i];
            if p.package.eq_to(id) {
                proof {
                    let rl = r@.len() as int;
                    assert(all.skip(rl) == seq![self.packages@[i as int]] + bindings_for(
                        self.packages@.take(i as int),
                        id@,
                    ));
                    assert(all.skip(rl).len() >= 1);
                    assert(all[rl] == all.skip(rl)[0]);
                    assert(all[rl] == self.packages@[i as int]);
                    assert(all.skip(rl + 1) =~= all.skip(rl).skip(1));
                    assert((seq![self.packages@[i as int]] + bindings_for(
                        self.packages@.take(i as int),
                        id@,
                    )).skip(1) =~= bindings_for(self.packages@.take(i as int), id@));
                    assert(all.skip(rl + 1) == bindings_for(self.packages@.take(i as int), id@));
                }
                r.push(self.packages[i].duplicate());
            } else {
                proof {
                    assert(all.skip(r@.len() as int) =~= bindings_for(
                        self.packages@.take(i as int),
                        id@,
                    ));
                }
            }
        }
        proof {
            assert(self.packages@.take(0) =~= Seq::<StorePackage>::empty());
            assert(all.skip(r@.len() as int).len() == 0);
            assert(r@.len() == all.len());
            lemma_bindings_most_recent_first(self.packages@, id@);
        }
        r
    }

    /// The artifact record with hash `h`, if one is registered.
    pub fn artifact(&self, h: &ArtifactId) -> (r: Option<StoreArtifact>)
        requires
            self.wf(),
        ensures
            match r {
                Some(a) => self.has_artifact(h.bytes@) && a.artifact.bytes@ == h.bytes@,
                None => !self.has_artifact(h.bytes@),
            },
    {
        match self.find_artifact(h) {
            Some(i) => {
                let a = &self.artifacts[i];
                Some(StoreArtifact { artifact: a.artifact.duplicate(), created_at: a.created_at })
            },
            None => None,
        }
    }

    /// The content directory of the artifact with hash `h`, if one is
    /// registered.  Its canonical serialization hashes back to `h`.
    pub fn content(&self, h: &ArtifactId) -> (r: Option<&DirTree>)
        requires
            self.wf(),
        ensures
            match r {
                Some(d) => self.has_artifact(h.bytes@) && blake3_of(spec_dir_bytes(d.entries@))
                    == h.bytes@,
                None => !self.has_artifact(h.bytes@),
            },
    {
        match self.find_artifact(h) {
            Some(i) => Some(&self.contents[i]),
            None => None,
        }
    }
}

/// Peeling the last binding off the prefix: how `bindings_for` relates a
/// prefix of length `i + 1` to the prefix of length `i`.
/// Every stamp among an identifier's bindings respects a bound on the
/// whole table's stamps.
proof fn lemma_bindings_stamps_bounded(
    s: Seq<StorePackage>,
    idv: (Seq<char>, Seq<Seq<char>>),
    bound: u64,
)
    requires
        forall|a: int| 0 <= a < s.len() ==> (#[trigger] s[a]).created_at <= bound,
    ensures
        forall|k: int|
            0 <= k < bindings_for(s, idv).len() ==> (#[trigger] bindings_for(s, idv)[k]).created_at
                <= bound,
    decreases s.len(),
{
    if s.len() > 0 {
        let d = s.drop_last();
        lemma_bindings_stamps_bounded(d, idv, bound);
        assert forall|k: int|
            0 <= k < bindings_for(s, idv).len() implies (
        #[trigger] bindings_for(s, idv)[k]).created_at <= bound by {
            if s.last().package@ == idv {
                if k == 0 {
                    assert(bindings_for(s, idv)[0] == s.last());
                } else {
                    assert(bindings_for(s, idv)[k] == bindings_for(d, idv)[k - 1]);
                }
            } else {
                assert(bindings_for(s, idv)[k] == bindings_for(d, idv)[k]);
            }
        }
    }
}

/// Law: with registration stamps that never decrease along the table, an
/// identifier's bindings come back most recent first: their stamps never
/// increase along the result.
pub proof fn lemma_bindings_most_recent_first(s: Seq<StorePackage>, idv: (Seq<char>, Seq<Seq<char>>))
    requires
        forall|a: int, b: int|
            0 <= a < b < s.len() ==> (#[trigger] s[a]).created_at <= (#[trigger] s[b]).created_at,
    ensures
        forall|i: int, j: int|
            0 <= i < j < bindings_for(s, idv).len() ==> (
            #[trigger] bindings_for(s, idv)[i]).created_at >= (
            #[trigger] bindings_for(s, idv)[j]).created_at,
    decreases s.len(),
{
    if s.len() > 0 {
        let d = s.drop_last();
        assert forall|a: int, b: int|
            0 <= a < b < d.len() implies (#[trigger] d[a]).created_at <= (
        #[trigger] d[b]).created_at by {
            assert(s[a].created_at <= s[b].created_at);
        }
        lemma_bindings_most_recent_first(d, idv);
        assert forall|a: int| 0 <= a < d.len() implies (#[trigger] d[a]).created_at
            <= s.last().created_at by {
            assert(s[a].created_at <= s[s.len() - 1].created_at);
        }
        lemma_bindings_stamps_bounded(d, idv, s.last().created_at);
        assert forall|i: int, j: int|
            0 <= i < j < bindings_for(s, idv).len() implies (
        #[trigger] bindings_for(s, idv)[i]).created_at >= (
        #[trigger] bindings_for(s, idv)[j]).created_at by {
            if s.last().package@ == idv {
                assert(bindings_for(s, idv)[j] == bindings_for(d, idv)[j - 1]);
                if i == 0 {
                    assert(bindings_for(s, idv)[0] == s.last());
                } else {
                    assert(bindings_for(s, idv)[i] == bindings_for(d, idv)[i - 1]);
                }
            } else {
                assert(bindings_for(s, idv)[i] == bindings_for(d, idv)[i]);
                assert(bindings_for(s, idv)[j] == bindings_for(d, idv)[j]);
            }
        }
    }
}

proof fn lemma_bindings_take_step(s: Seq<StorePackage>, idv: (Seq<char>, Seq<Seq<char>>), i: int)
    requires
        0 <= i < s.len(),
    ensures
        bindings_for(s.take(i + 1), idv) == (if s[i].package@ == idv {
            seq![s[i]]
        } else {
            Seq::<StorePackage>::empty()
        }) + bindings_for(s.take(i), idv),
{
    assert(s.take(i + 1).drop_last() =~= s.take(i));
    assert(s.take(i + 1).last() == s[i]);
}


/// Cache consultation: the first binding whose structural key equals
/// `key`.  A hit means the package was already built from structurally
/// identical inputs.
pub fn find_cached(bindings: &Vec<StorePackage>, key: &Vec<u8>) -> (r: Option<usize>)
    ensures
        match r {
            Some(i) => i < bindings@.len() && bindings@[i as int].key@ == key@ && forall|j: int|
                0 <= j < i ==> (#[trigger] bindings@[j]).key@ != key@,
            None => forall|j: int| 0 <= j < bindings@.len() ==> (#[trigger] bindings@[j]).key@ != key@,
        },
{
    let mut i: usize = 0;
    while i < bindings.len()
        invariant
            i <= bindings@.len(),
            forall|j: int| 0 <= j < i ==> (#[trigger] bindings@[j]).key@ != key@,
        decreases bindings@.len() - i,
    {
        if bytes_eq(&bindings[i].key, key) {
            return Some(i);
        }
        i = i + 1;
    }
    None
}

} // verus!
