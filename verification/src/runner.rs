//! Framing of command-runner requests: the engine controls the sandboxed
//! runner over a byte stream, writing one request object per command.  The
//! exact bytes of that frame are assembled and verified here; the runner
//! side of the stream is an outside process.
//!
//! A request carries the program, its arguments, an optional working
//! directory and `key=value` environment assignments, as an object in
//! JavaScript object notation with string contents escaped byte by byte.

use vstd::prelude::*;

use crate::executor::LuaCommand;
use vstd::string::StringSliceAdditionalSpecFns;
use vstd::utf8::encode_utf8;

verus! {

/// The escape sequence of one content byte: quotes and backslashes are
/// escaped, the common control characters get their short forms, other
/// control bytes their four-digit form, and everything else (including
/// multi-byte encodings) passes through.
pub open spec fn esc_byte(b: u8) -> Seq<u8> {
    if b == 34 {
        seq![92u8, 34u8]
    } else if b == 92 {
        seq![92u8, 92u8]
    } else if b == 10 {
        seq![92u8, 110u8]
    } else if b == 13 {
        seq![92u8, 114u8]
    } else if b == 9 {
        seq![92u8, 116u8]
    } else if b < 32 {
        seq![92u8, 117u8, 48u8, 48u8, hex_byte((b >> 4) as nat), hex_byte((b & 0xf) as nat)]
    } else {
        seq![b]
    }
}

/// The lower-case hexadecimal digit byte of a value below sixteen.
pub open spec fn hex_byte(d: nat) -> u8 {
    if d < 10 {
        (48 + d) as u8
    } else {
        (87 + d) as u8
    }
}

/// A byte string with every content byte escaped.
pub open spec fn esc_bytes(s: Seq<u8>) -> Seq<u8>
    decreases s.len(),
{
    if s.len() == 0 {
        Seq::empty()
    } else {
        esc_bytes(s.drop_last()) + esc_byte(s.last())
    }
}

/// A quoted, escaped string item.
pub open spec fn quoted(s: Seq<u8>) -> Seq<u8> {
    encode_utf8("\""@) + esc_bytes(s) + encode_utf8("\""@)
}

/// A list of quoted string items, comma-separated.
pub open spec fn quoted_list(items: Seq<Seq<u8>>) -> Seq<u8>
    decreases items.len(),
{
    if items.len() == 0 {
        Seq::empty()
    } else if items.len() == 1 {
        quoted(items[0])
    } else {
        quoted_list(items.drop_last()) + encode_utf8(","@) + quoted(items.last())
    }
}

/// The views of a vector of byte vectors.
pub open spec fn byte_items(v: Seq<Vec<u8>>) -> Seq<Seq<u8>> {
    Seq::new(v.len(), |i: int| v[i]@)
}

/// The byte encodings of a command's arguments.
pub open spec fn arg_items(args: Seq<String>) -> Seq<Seq<u8>> {
    Seq::new(args.len(), |i: int| encode_utf8(args[i]@))
}

/// The byte encodings of a command's environment assignments, each as
/// `key=value`.
pub open spec fn env_items(env: Seq<(String, String)>) -> Seq<Seq<u8>> {
    Seq::new(env.len(), |i: int| encode_utf8(env[i].0@) + seq![61u8] + encode_utf8(env[i].1@))
}

/// The full request frame for one command.
pub open spec fn spec_request_bytes(cmd: LuaCommand) -> Seq<u8> {
    encode_utf8("{\"program\":"@) + quoted(encode_utf8(cmd.program@)) + encode_utf8(
        ",\"args\":["@,
    ) + quoted_list(arg_items(cmd.arguments@)) + encode_utf8("],\"working_dir\":"@) + (
    match cmd.working_dir {
        Some(d) => quoted(encode_utf8(d@)),
        None => encode_utf8("null"@),
    }) + encode_utf8(",\"environment\":["@) + quoted_list(env_items(cmd.environment@))
        + encode_utf8("]}"@)
}

/// Append a literal piece of the frame.
fn push_lit(out: &mut Vec<u8>, s: &str)
    ensures
        final(out)@ == old(out)@ + encode_utf8(s@),
{
    let bytes = s.as_bytes();
    let mut i: usize = 0;
    while i < bytes.len()
        invariant
            i <= bytes@.len(),
            bytes@ == s.spec_bytes(),
            out@ == old(out)@ + bytes@.take(i as int),
        decreases bytes@.len() - i,
    {
        out.push(bytes[i]);
        proof {
            assert(old(out)@ + bytes@.take(i as int + 1) =~= (old(out)@ + bytes@.take(
                i as int,
            )).push(bytes@[i as int]));
        }
        i = i + 1;
    }
    proof {
        assert(bytes@.take(bytes@.len() as int) =~= bytes@);
    }
}

/// Append the escape sequence of every byte of `s`.
fn push_escaped(out: &mut Vec<u8>, s: &[u8])
    ensures
        final(out)@ == old(out)@ + esc_bytes(s@),
{
    let mut i: usize = 0;
    while i < s.len()
        invariant
            i <= s@.len(),
            out@ == old(out)@ + esc_bytes(s@.take(i as int)),
        decreases s@.len() - i,
    {
        let b = s[i];
        if b == 34 {
            out.push(92);
            out.push(34);
        } else if b == 92 {
            out.push(92);
            out.push(92);
        } else if b == 10 {
            out.push(92);
            out.push(110);
        } else if b == 13 {
            out.push(92);
            out.push(114);
        } else if b == 9 {
            out.push(92);
            out.push(116);
        } else if b < 32 {
            out.push(92);
            out.push(117);
            out.push(48);
            out.push(48);
            let hi = b >> 4;
            let lo = b & 0xf;
            proof {
                assert(b >> 4 < 16 && b & 0xf < 16) by (bit_vector);
            }
            out.push(if hi < 10 {
                48 + hi
            } else {
                87 + hi
            });
            out.push(if lo < 10 {
                48 + lo
            } else {
                87 + lo
            });
        } else {
            out.push(b);
        }
        proof {
            assert(s@.take(i as int + 1).drop_last() =~= s@.take(i as int));
            assert(s@.take(i as int + 1).last() == s@[i as int]);
            assert(out@ =~= old(out)@ + (esc_bytes(s@.take(i as int)) + esc_byte(s@[i as int])));
        }
        i = i + 1;
    }
    proof {
        assert(s@.take(s@.len() as int) =~= s@);
    }
}

/// Append one quoted string item built from already-encoded bytes.
fn push_quoted(out: &mut Vec<u8>, item: &Vec<u8>)
    ensures
        final(out)@ == old(out)@ + quoted(item@),
{
    push_lit(out, "\"");
    push_escaped(out, item.as_slice());
    push_lit(out, "\"");
    proof {
        assert(final(out)@ =~= old(out)@ + quoted(item@));
    }
}

/// Append a comma-separated list of quoted items.
fn push_quoted_list(out: &mut Vec<u8>, items: &Vec<Vec<u8>>)
    ensures
        final(out)@ == old(out)@ + quoted_list(byte_items(items@)),
{
    let mut i: usize = 0;
    while i < items.len()
        invariant
            i <= items@.len(),
            out@ == old(out)@ + quoted_list(byte_items(items@).take(i as int)),
        decreases items@.len() - i,
    {
        if i > 0 {
            push_lit(out, ",");
        }
        push_quoted(out, &items[i]);
        proof {
            let iv = byte_items(items@);
            assert(iv.take(i as int + 1).drop_last() =~= iv.take(i as int));
            assert(iv.take(i as int + 1).last() == iv[i as int]);
            assert(iv[i as int] == items@[i as int]@);
            if i == 0 {
                assert(out@ =~= old(out)@ + quoted_list(iv.take(1)));
            } else {
                assert(out@ =~= old(out)@ + (quoted_list(iv.take(i as int)) + encode_utf8(","@)
                    + quoted(iv[i as int])));
            }
        }
        i = i + 1;
    }
    proof {
        assert(byte_items(items@).take(byte_items(items@).len() as int) =~= byte_items(items@));
    }
}

/// Collect the byte encodings of the arguments.
fn collect_arg_items(args: &Vec<String>) -> (r: Vec<Vec<u8>>)
    ensures
        byte_items(r@) == arg_items(args@),
{
    let mut r: Vec<Vec<u8>> = Vec::new();
    let mut i: usize = 0;
    while i < args.len()
        invariant
            i <= args@.len(),
            r@.len() == i,
            forall|m: int| 0 <= m < i ==> (#[trigger] r@[m])@ == encode_utf8(args@[m]@),
        decreases args@.len() - i,
    {
        let item = slice_to_vec(args[i].as_str().as_bytes());
        proof {
            assert(item@ == encode_utf8(args@[i as int]@));
        }
        r.push(item);
        i = i + 1;
    }
    proof {
        assert(byte_items(r@) =~= arg_items(args@));
    }
    r
}

/// Collect the byte encodings of the environment assignments, each as
/// `key=value`.
fn collect_env_items(env: &Vec<(String, String)>) -> (r: Vec<Vec<u8>>)
    ensures
        byte_items(r@) == env_items(env@),
{
    let mut r: Vec<Vec<u8>> = Vec::new();
    let mut j: usize = 0;
    while j < env.len()
        invariant
            j <= env@.len(),
            r@.len() == j,
            forall|m: int|
                0 <= m < j ==> (#[trigger] r@[m])@ == encode_utf8(env@[m].0@) + seq![61u8]
                    + encode_utf8(env@[m].1@),
        decreases env@.len() - j,
    {
        let mut entry = slice_to_vec(env[j].0.as_str().as_bytes());
        entry.push(61);
        proof {
            assert(entry@ =~= encode_utf8(env@[j as int].0@) + seq![61u8]);
        }
        let ghost mid = entry@;
        let value = env[j].1.as_str().as_bytes();
        let mut k: usize = 0;
        while k < value.len()
            invariant
                k <= value@.len(),
                entry@ == mid + value@.take(k as int),
            decreases value@.len() - k,
        {
            entry.push(value[k]);
            proof {
                assert(mid + value@.take(k as int + 1) =~= (mid + value@.take(k as int)).push(
                    value@[k as int],
                ));
            }
            k = k + 1;
        }
        proof {
            assert(value@.take(value@.len() as int) =~= value@);
            assert(entry@ =~= encode_utf8(env@[j as int].0@) + seq![61u8] + encode_utf8(
                env@[j as int].1@,
            ));
        }
        r.push(entry);
        j = j + 1;
    }
    proof {
        assert(byte_items(r@) =~= env_items(env@));
    }
    r
}

/// Frame one command as the bytes written to the command runner.
pub fn encode_request(cmd: &LuaCommand) -> (r: Vec<u8>)
    ensures
        r@ == spec_request_bytes(*cmd),
{
    let mut out: Vec<u8> = Vec::new();
    push_lit(&mut out, "{\"program\":");
    let program_bytes = slice_to_vec(cmd.program.as_str().as_bytes());
    push_quoted(&mut out, &program_bytes);
    push_lit(&mut out, ",\"args\":[");
    let args = collect_arg_items(&cmd.arguments);
    push_quoted_list(&mut out, &args);
    push_lit(&mut out, "],\"working_dir\":");
    match &cmd.working_dir {
        Some(d) => {
            let dir_bytes = slice_to_vec(d.as_str().as_bytes());
            push_quoted(&mut out, &dir_bytes);
        },
        None => {
            push_lit(&mut out, "null");
        },
    }
    push_lit(&mut out, ",\"environment\":[");
    let env = collect_env_items(&cmd.environment);
    push_quoted_list(&mut out, &env);
    push_lit(&mut out, "]}");
    proof {
        assert(out@ =~= spec_request_bytes(*cmd));
    }
    out
}

/// Copy a byte slice into a vector.
fn slice_to_vec(s: &[u8]) -> (r: Vec<u8>)
    ensures
        r@ == s@,
{
    let mut r: Vec<u8> = Vec::new();
    let mut i: usize = 0;
    while i < s.len()
        invariant
            i <= s@.len(),
            r@ == s@.take(i as int),
        decreases s@.len() - i,
    {
        r.push(s[i]);
        proof {
            assert(s@.take(i as int + 1) =~= s@.take(i as int).push(s@[i as int]));
        }
        i = i + 1;
    }
    proof {
        assert(s@.take(s@.len() as int) =~= s@);
    }
    r
}

} // verus!
