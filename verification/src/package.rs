//! Package identity and the package model.

use vstd::prelude::*;
use vstd::string::StringSliceAdditionalSpecFns;
use vstd::utf8::valid_utf8;

verus! {

/// Classification of a dependency edge: the child is needed at run time,
/// or only while building.
#[derive(Clone, Copy, Debug, PartialEq, Eq, Structural)]
pub enum LinkTime {
    Runtime,
    Buildtime,
}

/// The name `DependencyType` is used interchangeably with [`LinkTime`] by
/// older carriers of the model.
pub type DependencyType = LinkTime;

/// Opaque metadata bag attached to a package definition.
#[derive(Clone, Copy, Debug)]
pub struct Metadata;

/// Clone a string, keeping its characters.
pub fn clone_string(s: &String) -> (r: String)
    ensures
        r@ == s@,
{
    s.clone()
}

/// Clone a vector of strings, keeping every element's characters.
pub fn clone_strings(v: &Vec<String>) -> (r: Vec<String>)
    ensures
        r.deep_view() == v.deep_view(),
        r@.len() == v@.len(),
{
    let mut r: Vec<String> = Vec::new();
    let mut i: usize = 0;
    while i < v.len()
        invariant
            i <= v@.len(),
            r@.len() == i,
            forall|j: int| 0 <= j < i ==> r.deep_view()[j] == v.deep_view()[j],
        decreases v@.len() - i,
    {
        r.push(clone_string(&v[i]));
        i = i + 1;
    }
    proof {
        assert(r.deep_view() =~= v.deep_view());
    }
    r
}

/// Hierarchical package identifier: a name plus an ordered namespace path.
/// Canonical rendering: `name@ns1/ns2/...`.
#[derive(Clone, Debug)]
pub struct PackageId {
    pub name: String,
    pub namespace: Vec<String>,
}

impl View for PackageId {
    type V = (Seq<char>, Seq<Seq<char>>);

    open spec fn view(&self) -> (Seq<char>, Seq<Seq<char>>) {
        (self.name@, self.namespace.deep_view())
    }
}

/// Join a sequence of namespace tokens with `/` separators.
pub open spec fn spec_join_tokens(tokens: Seq<Seq<char>>) -> Seq<char>
    decreases tokens.len(),
{
    if tokens.len() == 0 {
        Seq::empty()
    } else if tokens.len() == 1 {
        tokens[0]
    } else {
        tokens[0] + seq!['/'] + spec_join_tokens(tokens.drop_first())
    }
}

/// Appending one more token extends the join by a separator (unless empty).
proof fn lemma_join_push(tokens: Seq<Seq<char>>, t: Seq<char>)
    ensures
        spec_join_tokens(tokens.push(t)) == if tokens.len() == 0 {
            t
        } else {
            spec_join_tokens(tokens) + seq!['/'] + t
        },
    decreases tokens.len(),
{
    if tokens.len() == 0 {
        assert(tokens.push(t)[0] == t);
        assert(tokens.push(t).len() == 1);
    } else if tokens.len() == 1 {
        assert(tokens.push(t).drop_first() =~= seq![t]);
        assert(spec_join_tokens(seq![t]) == t);
    } else {
        assert(tokens.push(t).drop_first() =~= tokens.drop_first().push(t));
        lemma_join_push(tokens.drop_first(), t);
        assert(spec_join_tokens(tokens.push(t)) == tokens[0] + seq!['/'] + spec_join_tokens(
            tokens.drop_first().push(t),
        ));
        assert(spec_join_tokens(tokens) + seq!['/'] + t =~= tokens[0] + seq!['/'] + (
        spec_join_tokens(tokens.drop_first()) + seq!['/'] + t));
    }
}

impl PackageId {
    /// Characters of the canonical rendering `name@ns1/ns2/...`.
    pub open spec fn spec_render(self) -> Seq<char> {
        self.name@ + seq!['@'] + spec_join_tokens(self.namespace.deep_view())
    }

    /// Render the identifier in its canonical `name@ns1/ns2/...` form.
    pub fn render(&self) -> (r: String)
        ensures
            r@ == self.spec_render(),
    {
        proof {
            reveal_strlit("@");
            reveal_strlit("/");
        }
        let mut r = self.name.clone();
        r.append("@");
        let mut i: usize = 0;
        while i < self.namespace.len()
            invariant
                i <= self.namespace.len(),
                r@ == self.name@ + seq!['@'] + spec_join_tokens(
                    self.namespace.deep_view().take(i as int),
                ),
            decreases self.namespace.len() - i,
        {
            proof {
                reveal_strlit("/");
                lemma_join_push(self.namespace.deep_view().take(i as int), self.namespace.deep_view()[i as int]);
                assert(self.namespace.deep_view().take(i as int).push(
                    self.namespace.deep_view()[i as int],
                ) =~= self.namespace.deep_view().take(i + 1));
            }
            if i > 0 {
                r.append("/");
            }
            r.append(self.namespace[i].as_str());
            i = i + 1;
        }
        proof {
            assert(self.namespace.deep_view().take(self.namespace.len() as int)
                =~= self.namespace.deep_view());
        }
        r
    }

    /// Value equality of identifiers: same name and same namespace path.
    pub fn eq_to(&self, other: &PackageId) -> (r: bool)
        ensures
            r == (self@ == other@),
    {
        if !(self.name == other.name) {
            return false;
        }
        if self.namespace.len() != other.namespace.len() {
            proof {
                assert(self.namespace.deep_view().len() != other.namespace.deep_view().len());
            }
            return false;
        }
        let mut i: usize = 0;
        while i < self.namespace.len()
            invariant
                i <= self.namespace.len(),
                self.namespace.len() == other.namespace.len(),
                self.name@ == other.name@,
                forall|j: int|
                    0 <= j < i ==> self.namespace.deep_view()[j] == other.namespace.deep_view()[j],
            decreases self.namespace.len() - i,
        {
            if !(self.namespace[i] == other.namespace[i]) {
                proof {
                    let vi = i as int;
                    assert(self.namespace.deep_view()[vi] != other.namespace.deep_view()[vi]);
                }
                return false;
            }
            i = i + 1;
        }
        proof {
            assert(self.namespace.deep_view() =~= other.namespace.deep_view());
        }
        true
    }

    /// Clone the identifier, keeping its value.
    pub fn duplicate(&self) -> (r: PackageId)
        ensures
            r@ == self@,
    {
        PackageId { name: clone_string(&self.name), namespace: clone_strings(&self.namespace) }
    }
}

/// A dependency declaration: the node handle of the child package and how it
/// is linked.
#[derive(Clone, Copy, Debug, PartialEq, Eq, Structural)]
pub struct Dependency {
    pub node: usize,
    pub time: LinkTime,
}

/// A package definition: identity, metadata, the current configuration value
/// in its canonical encoding, and opaque handles to the build thunk and the
/// configure thunk held by the script host.
#[derive(Clone, Debug)]
pub struct Package {
    pub id: PackageId,
    pub metadata: Metadata,
    pub config: String,
    pub build: u64,
    pub apply: u64,
}

impl Package {
    /// Clone the package, keeping its identity, configuration and handles.
    pub fn duplicate(&self) -> (r: Package)
        ensures
            r.id@ == self.id@,
            r.config@ == self.config@,
            r.build == self.build,
            r.apply == self.apply,
    {
        Package {
            id: self.id.duplicate(),
            metadata: Metadata,
            config: clone_string(&self.config),
            build: self.build,
            apply: self.apply,
        }
    }
}


/// The error of parsing a package identifier from its rendered form.
#[derive(Debug)]
pub struct ParseIdError;

/// The index of the first occurrence of `t` in `b`, or a negative value
/// when `t` does not occur.
pub open spec fn first_index(b: Seq<u8>, t: u8) -> int
    decreases b.len(),
{
    if b.len() == 0 {
        -1
    } else if b[0] == t {
        0
    } else if first_index(b.drop_first(), t) < 0 {
        -1
    } else {
        first_index(b.drop_first(), t) + 1
    }
}

/// What `first_index` means: a negative result is absence, a non-negative
/// result is the least occurrence.
pub proof fn lemma_first_index_char(b: Seq<u8>, t: u8)
    ensures
        first_index(b, t) < 0 <==> (forall|j: int| 0 <= j < b.len() ==> b[j] != t),
        first_index(b, t) >= 0 ==> first_index(b, t) < b.len() && b[first_index(b, t)] == t
            && (forall|j: int| 0 <= j < first_index(b, t) ==> b[j] != t),
    decreases b.len(),
{
    if b.len() > 0 {
        lemma_first_index_char(b.drop_first(), t);
        if b[0] != t {
            assert forall|j: int| 0 <= j < b.len() && b[j] == t implies first_index(b, t) >= 0 by {
                if j > 0 {
                    assert(b.drop_first()[j - 1] == t);
                }
            }
            if first_index(b, t) >= 0 {
                let fi = first_index(b, t);
                assert(b[fi] == b.drop_first()[fi - 1]);
                assert forall|j: int| 0 <= j < fi implies b[j] != t by {
                    if j > 0 {
                        assert(b.drop_first()[j - 1] != t);
                        assert(b[j] == b.drop_first()[j - 1]);
                    }
                }
            }
        }
    }
}

/// Split a byte sequence at every occurrence of `sep`; `n` separators
/// yield `n + 1` chunks.
pub open spec fn spec_split_bytes(b: Seq<u8>, sep: u8) -> Seq<Seq<u8>>
    decreases b.len(),
{
    if b.len() == 0 {
        seq![Seq::<u8>::empty()]
    } else if b[0] == sep {
        seq![Seq::<u8>::empty()] + spec_split_bytes(b.drop_first(), sep)
    } else {
        let rest = spec_split_bytes(b.drop_first(), sep);
        seq![seq![b[0]] + rest[0]] + rest.drop_first()
    }
}

proof fn lemma_split_len(b: Seq<u8>, sep: u8)
    ensures
        spec_split_bytes(b, sep).len() >= 1,
    decreases b.len(),
{
    if b.len() > 0 {
        lemma_split_len(b.drop_first(), sep);
    }
}

/// Splitting steps over the first separator: everything before it is the
/// first chunk, the rest splits on its own.
proof fn lemma_split_step(b: Seq<u8>, sep: u8)
    ensures
        first_index(b, sep) < 0 ==> spec_split_bytes(b, sep) == seq![b],
        first_index(b, sep) >= 0 ==> spec_split_bytes(b, sep) == seq![b.take(first_index(b, sep))]
            + spec_split_bytes(b.skip(first_index(b, sep) + 1), sep),
    decreases b.len(),
{
    lemma_first_index_char(b, sep);
    if b.len() == 0 {
        assert(b =~= Seq::<u8>::empty());
        assert(spec_split_bytes(b, sep) == seq![b]);
    } else if b[0] == sep {
        assert(b.take(0) =~= Seq::<u8>::empty());
        assert(b.skip(1) =~= b.drop_first());
        assert(spec_split_bytes(b, sep) =~= seq![b.take(0)] + spec_split_bytes(b.skip(1), sep));
    } else {
        let d = b.drop_first();
        lemma_split_step(d, sep);
        lemma_split_len(d, sep);
        let rest = spec_split_bytes(d, sep);
        if first_index(d, sep) < 0 {
            assert(rest == seq![d]);
            assert(seq![b[0]] + rest[0] =~= b);
            assert(spec_split_bytes(b, sep) =~= seq![b]);
        } else {
            let fd = first_index(d, sep);
            assert(first_index(b, sep) == fd + 1);
            assert(rest[0] == d.take(fd));
            assert(seq![b[0]] + d.take(fd) =~= b.take(fd + 1));
            assert(rest.drop_first() =~= spec_split_bytes(d.skip(fd + 1), sep));
            assert(d.skip(fd + 1) =~= b.skip(fd + 2));
            assert(spec_split_bytes(b, sep) =~= seq![b.take(fd + 1)] + spec_split_bytes(
                b.skip(fd + 2),
                sep,
            ));
        }
    }
}

/// The byte encodings of a sequence of strings.
pub open spec fn token_bytes(ns: Seq<String>) -> Seq<Seq<u8>> {
    Seq::new(ns.len(), |k: int| vstd::utf8::encode_utf8(ns[k]@))
}

/// The index of the first occurrence of `t`, scanning left to right.
fn find_byte(b: &[u8], t: u8) -> (r: Option<usize>)
    ensures
        match r {
            Some(i) => i < b@.len() && b@[i as int] == t && forall|j: int|
                0 <= j < i ==> b@[j] != t,
            None => forall|j: int| 0 <= j < b@.len() ==> b@[j] != t,
        },
{
    let mut i: usize = 0;
    while i < b.len()
        invariant
            i <= b@.len(),
            forall|j: int| 0 <= j < i ==> b@[j] != t,
        decreases b@.len() - i,
    {
        if b[i] == t {
            return Some(i);
        }
        i = i + 1;
    }
    None
}

/// In valid UTF-8, the index after a one-byte character that sits on a
/// boundary is itself a boundary.
proof fn lemma_boundary_after_one_byte(bytes: Seq<u8>, i: int)
    requires
        valid_utf8(bytes),
        vstd::utf8::is_char_boundary(bytes, i),
        0 <= i < bytes.len(),
        bytes[i] < 0x80,
    ensures
        vstd::utf8::is_char_boundary(bytes, i + 1),
{
    if i + 1 == bytes.len() {
        vstd::utf8::is_char_boundary_start_end_of_seq(bytes);
    } else {
        vstd::utf8::valid_utf8_split(bytes, i);
        let suffix = bytes.subrange(i, bytes.len() as int);
        assert(valid_utf8(suffix));
        assert(vstd::utf8::is_leading_byte_width_1(suffix[0]));
        assert(vstd::utf8::is_char_boundary(suffix, 1)) by {
            reveal_with_fuel(vstd::utf8::is_char_boundary, 2);
            assert(vstd::utf8::length_of_first_scalar(suffix) == 1);
        }
        assert(1 < suffix.len());
        vstd::utf8::is_char_boundary_iff_not_is_continuation_byte(suffix, 1);
        assert(!vstd::utf8::is_continuation_byte(suffix[1]));
        assert(suffix[1] == bytes[i + 1]);
        vstd::utf8::is_char_boundary_iff_not_is_continuation_byte(bytes, i + 1);
    }
}

impl PackageId {
    /// Parse an identifier back from its rendered `name@ns1/ns2/...` form:
    /// the name is everything before the first `@`, and the namespace is
    /// the remainder split at every `/`.  Fails exactly when no `@`
    /// occurs.
    pub fn parse(s: &str) -> (r: Result<PackageId, ParseIdError>)
        ensures
            match r {
                Ok(id) => {
                    &&& first_index(s.spec_bytes(), 64) >= 0
                    &&& vstd::utf8::encode_utf8(id.name@) == s.spec_bytes().take(
                        first_index(s.spec_bytes(), 64),
                    )
                    &&& token_bytes(id.namespace@) == spec_split_bytes(
                        s.spec_bytes().skip(first_index(s.spec_bytes(), 64) + 1),
                        47,
                    )
                },
                Err(_) => first_index(s.spec_bytes(), 64) < 0,
            },
    {
        let ghost sb = s.spec_bytes();
        proof {
            vstd::utf8::encode_utf8_valid_utf8(s@);
        }
        let bytes = s.as_bytes();
        let at = match find_byte(bytes, 64) {
            Some(i) => i,
            None => {
                proof {
                    lemma_first_index_char(sb, 64);
                }
                return Err(ParseIdError);
            },
        };
        proof {
            lemma_first_index_char(sb, 64);
            assert(first_index(sb, 64) == at);
            assert(valid_utf8(sb));
            assert(!vstd::utf8::is_continuation_byte(sb[at as int]));
            vstd::utf8::is_char_boundary_iff_not_is_continuation_byte(sb, at as int);
            assert(vstd::utf8::is_char_boundary(sb, at as int));
        }
        let (name_part, rest0) = s.split_at(at);
        proof {
            assert(name_part.spec_bytes() =~= sb.take(at as int));
            vstd::utf8::valid_utf8_split(sb, at as int);
            assert(rest0.spec_bytes() =~= sb.skip(at as int));
            assert(valid_utf8(rest0.spec_bytes()));
            vstd::utf8::is_char_boundary_start_end_of_seq(rest0.spec_bytes());
            assert(rest0.spec_bytes()[0] == 64);
            lemma_boundary_after_one_byte(rest0.spec_bytes(), 0);
            assert(vstd::utf8::is_char_boundary(rest0.spec_bytes(), 1));
        }
        let (_sep, ns_str) = rest0.split_at(1);
        proof {
            vstd::utf8::valid_utf8_split(rest0.spec_bytes(), 1);
            assert(ns_str.spec_bytes() =~= sb.skip(at as int + 1));
            assert(valid_utf8(ns_str.spec_bytes()));
        }
        let name = name_part.to_owned();
        let ghost b0 = ns_str.spec_bytes();
        let mut namespace: Vec<String> = Vec::new();
        let mut remaining: &str = ns_str;
        loop
            invariant_except_break
                valid_utf8(remaining.spec_bytes()),
                spec_split_bytes(b0, 47) == token_bytes(namespace@) + spec_split_bytes(
                    remaining.spec_bytes(),
                    47,
                ),
            ensures
                spec_split_bytes(b0, 47) == token_bytes(namespace@),
            decreases remaining.spec_bytes().len(),
        {
            let rbytes = remaining.as_bytes();
            match find_byte(rbytes, 47) {
                Some(j) => {
                    let ghost rb = remaining.spec_bytes();
                    proof {
                        lemma_first_index_char(rb, 47);
                        assert(first_index(rb, 47) == j);
                        lemma_split_step(rb, 47);
                        assert(!vstd::utf8::is_continuation_byte(rb[j as int]));
                        vstd::utf8::is_char_boundary_iff_not_is_continuation_byte(rb, j as int);
                        assert(vstd::utf8::is_char_boundary(rb, j as int));
                    }
                    let (tok, r2) = remaining.split_at(j);
                    proof {
                        assert(tok.spec_bytes() =~= rb.take(j as int));
                        vstd::utf8::valid_utf8_split(rb, j as int);
                        assert(r2.spec_bytes() =~= rb.skip(j as int));
                        assert(valid_utf8(r2.spec_bytes()));
                        vstd::utf8::is_char_boundary_start_end_of_seq(r2.spec_bytes());
                        assert(r2.spec_bytes()[0] == 47);
                        lemma_boundary_after_one_byte(r2.spec_bytes(), 0);
                        assert(vstd::utf8::is_char_boundary(r2.spec_bytes(), 1));
                    }
                    let (_sep2, r3) = r2.split_at(1);
                    let ghost ns_pre = namespace@;
                    namespace.push(tok.to_owned());
                    proof {
                        vstd::utf8::valid_utf8_split(r2.spec_bytes(), 1);
                        assert(r3.spec_bytes() =~= rb.skip(j as int + 1));
                        assert(valid_utf8(r3.spec_bytes()));
                        assert(token_bytes(namespace@) =~= token_bytes(ns_pre).push(
                            vstd::utf8::encode_utf8(tok@),
                        ));
                        assert(vstd::utf8::encode_utf8(tok@) == rb.take(j as int));
                        assert(token_bytes(namespace@) + spec_split_bytes(r3.spec_bytes(), 47)
                            =~= token_bytes(ns_pre) + (seq![rb.take(j as int)]
                            + spec_split_bytes(rb.skip(j as int + 1), 47)));
                    }
                    remaining = r3;
                },
                None => {
                    let ghost rb = remaining.spec_bytes();
                    let ghost ns_pre = namespace@;
                    namespace.push(remaining.to_owned());
                    proof {
                        lemma_first_index_char(rb, 47);
                        lemma_split_step(rb, 47);
                        assert(spec_split_bytes(rb, 47) == seq![rb]);
                        assert(token_bytes(namespace@) =~= token_bytes(ns_pre).push(rb));
                        assert(token_bytes(namespace@) =~= spec_split_bytes(b0, 47));
                    }
                    break;
                },
            }
        }
        Ok(PackageId { name, namespace })
    }
}


} // verus!
