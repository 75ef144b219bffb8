//! Choosing and invoking the editor, and OSC 52 copies.

use vstd::prelude::*;

use crate::text::{
    after_last, last_index_of, bytes_of, chars_of, decimal, decimal_string, is, opt_view, owned, slice_range, split_whitespace,
    string_of, trim, trimmed, views, words,
};
use vstd::string::StringExecFns;

verus! {

/// The first of the config's `editor`, `$VISUAL`, and `$EDITOR` that is
/// not blank, trimmed; `vi` when all are.
pub open spec fn chosen_editor(config: Seq<char>, visual: Option<Seq<char>>, editor: Option<Seq<char>>) -> Seq<char> {
    if trim(config).len() > 0 {
        trim(config)
    } else if visual is Some && trim(visual->0).len() > 0 {
        trim(visual->0)
    } else if editor is Some && trim(editor->0).len() > 0 {
        trim(editor->0)
    } else {
        "vi"@
    }
}

/// Config `editor`, then `$VISUAL`, then `$EDITOR`, then `vi`.
pub fn choose_editor(config: &str, visual: Option<&str>, editor: Option<&str>) -> (r: String)
    ensures
        r@ == chosen_editor(config@, opt_view(visual), opt_view(editor)),
{
    let c = trimmed(config);
    if !c.as_str().is_empty() {
        return c;
    }
    if let Some(v) = visual {
        let v = trimmed(v);
        if !v.as_str().is_empty() {
            return v;
        }
    }
    if let Some(e) = editor {
        let e = trimmed(e);
        if !e.as_str().is_empty() {
            return e;
        }
    }
    owned("vi")
}

/// Editors that take `+LINE` before the file.
pub open spec fn takes_plus_line(name: Seq<char>) -> bool {
    name == "vi"@ || name == "vim"@ || name == "nvim"@ || name == "nano"@ || name == "emacs"@
        || name == "micro"@ || name == "kak"@
}

/// The argv that opens `path` at `line` with `editor`: its words, then the
/// file in the form that editor understands for a line.
pub open spec fn editor_argv(editor: Seq<char>, path: Seq<char>, line: nat) -> Seq<Seq<char>> {
    let argv = words(editor);
    let name = if argv.len() > 0 { after_last(argv[0], '/') } else { seq![] };
    if takes_plus_line(name) {
        argv + seq!["+"@ + decimal(line), path]
    } else if name == "hx"@ {
        argv + seq![path + ":"@ + decimal(line)]
    } else if name == "code"@ {
        argv + seq!["-g"@, path + ":"@ + decimal(line)]
    } else {
        argv + seq![path]
    }
}

/// `path:line`.
fn at_line(path: &str, line: u32) -> (r: String)
    ensures
        r@ == path@ + ":"@ + decimal(line as nat),
{
    let mut s = owned(path);
    s.append(":");
    let n = decimal_string(line as u64);
    s.append(n.as_str());
    s
}

/// The argv that opens `path` at `line`. The editor string is split on
/// whitespace; quoting is not supported.
pub fn command(editor: &str, path: &str, line: u32) -> (argv: Vec<String>)
    ensures
        views(argv@) == editor_argv(editor@, path@, line as nat),
{
    let mut argv = split_whitespace(editor);
    let ghost words0 = views(argv@);
    let name: Vec<char> = if argv.len() > 0 {
        let first = chars_of(argv[0].as_str());
        let j = last_index_of(first.as_slice(), '/');
        vstd::slice::slice_to_vec(slice_range(first.as_slice(), j, first.len()))
    } else {
        Vec::new()
    };
    let n = name.as_slice();
    if is(n, "vi") || is(n, "vim") || is(n, "nvim") || is(n, "nano") || is(n, "emacs") || is(n, "micro")
        || is(n, "kak") {
        let mut plus = owned("+");
        let d = decimal_string(line as u64);
        plus.append(d.as_str());
        argv.push(plus);
        argv.push(owned(path));
        assert(views(argv@) =~= words0 + seq!["+"@ + decimal(line as nat), path@]);
    } else if is(n, "hx") {
        argv.push(at_line(path, line));
        assert(views(argv@) =~= words0 + seq![path@ + ":"@ + decimal(line as nat)]);
    } else if is(n, "code") {
        argv.push(owned("-g"));
        argv.push(at_line(path, line));
        assert(views(argv@) =~= words0 + seq!["-g"@, path@ + ":"@ + decimal(line as nat)]);
    } else {
        argv.push(owned(path));
        assert(views(argv@) =~= words0 + seq![path@]);
    }
    argv
}

/// The base64 alphabet's char for a sextet.
pub open spec fn b64_char(v: u32) -> char {
    if v < 26 {
        (v + 65) as char
    } else if v < 52 {
        (v - 26 + 97) as char
    } else if v < 62 {
        (v - 52 + 48) as char
    } else if v == 62 {
        '+'
    } else {
        '/'
    }
}

/// Sextet `i` (0 to 3) of a 24-bit group.
pub open spec fn sextet(n: u32, i: u32) -> u32 {
    (n >> (18 - 6 * i) as u32) & 63
}

/// A group of up to three bytes as four chars, `=`-padded (RFC 4648).
pub open spec fn b64_group(b0: u8, b1: u8, b2: u8, len: int) -> Seq<char> {
    let n = ((b0 as u32) << 16u32) | ((b1 as u32) << 8u32) | (b2 as u32);
    seq![
        b64_char(sextet(n, 0)),
        b64_char(sextet(n, 1)),
        if len >= 2 { b64_char(sextet(n, 2)) } else { '=' },
        if len >= 3 { b64_char(sextet(n, 3)) } else { '=' },
    ]
}

/// Standard base64 with padding.
pub open spec fn b64(data: Seq<u8>) -> Seq<char>
    decreases data.len(),
{
    if data.len() == 0 {
        seq![]
    } else if data.len() == 1 {
        b64_group(data[0], 0, 0, 1)
    } else if data.len() == 2 {
        b64_group(data[0], data[1], 0, 2)
    } else {
        b64_group(data[0], data[1], data[2], 3) + b64(data.skip(3))
    }
}

fn b64_char_exec(v: u32) -> (c: char)
    requires
        v < 64,
    ensures
        c == b64_char(v),
{
    if v < 26 {
        ((v + 65) as u8) as char
    } else if v < 52 {
        ((v - 26 + 97) as u8) as char
    } else if v < 62 {
        ((v - 52 + 48) as u8) as char
    } else if v == 62 {
        '+'
    } else {
        '/'
    }
}

pub fn base64(data: &[u8]) -> (r: String)
    ensures
        r@ == b64(data@),
{
    let mut out: Vec<char> = Vec::new();
    let mut i: usize = 0;
    assert(data@.skip(0) =~= data@);
    while i < data.len()
        invariant
            i <= data@.len(),
            b64(data@) == out@ + b64(data@.skip(i as int)),
        decreases data.len() - i,
    {
        let left = data.len() - i;
        let b0 = data[i];
        let b1 = if left >= 2 { data[i + 1] } else { 0 };
        let b2 = if left >= 3 { data[i + 2] } else { 0 };
        let len: usize = if left >= 3 { 3 } else { left };
        let n: u32 = ((b0 as u32) << 16u32) | ((b1 as u32) << 8u32) | (b2 as u32);
        let mut k: u32 = 0;
        let ghost before = out@;
        while k < 4
            invariant
                k <= 4,
                1 <= len <= 3,
                n == ((b0 as u32) << 16u32) | ((b1 as u32) << 8u32) | (b2 as u32),
                out@ == before + b64_group(b0, b1, b2, len as int).take(k as int),
            decreases 4 - k,
        {
            if k as usize <= len {
                let sh: u32 = 18 - 6 * k;
                let v = (n >> sh) & 63;
                assert(v < 64) by (bit_vector)
                    requires v == (n >> sh) & 63;
                assert(v == sextet(n, k));
                out.push(b64_char_exec(v));
            } else {
                out.push('=');
            }
            assert(out@ =~= before + b64_group(b0, b1, b2, len as int).take(k + 1));
            k = k + 1;
        }
        let ghost rest = data@.skip(i as int);
        assert(b64_group(b0, b1, b2, len as int).take(4) =~= b64_group(b0, b1, b2, len as int));
        if left >= 3 {
            assert(rest.skip(3) =~= data@.skip(i + 3));
            i = i + 3;
        } else {
            assert(data@.skip(i + left) =~= Seq::<u8>::empty());
            i = i + left;
        }
    }
    assert(data@.skip(data@.len() as int) =~= Seq::<u8>::empty());
    assert(out@ + Seq::<char>::empty() =~= out@);
    string_of(out.as_slice())
}

/// The OSC 52 sequence that sets the clipboard to `text`.
pub fn osc52(text: &str) -> (r: String)
    ensures
        r@ == "\x1b]52;c;"@ + b64(bytes_of(text@)) + "\x07"@,
{
    let mut s = owned("\x1b]52;c;");
    let b = base64(text.as_bytes());
    s.append(b.as_str());
    s.append("\x07");
    s
}

} // verus!
