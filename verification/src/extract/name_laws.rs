//! What names of files and paths say.

use super::paths::{
    file_name, folder, goes_down, last_at, lemma_resolved_same, naming, plain_path, resolved, stem,
};
use super::{finished, kind_of, ExtractedView, Kind};
use crate::text::edit::{lemma_parts_one, lower, lowercase, parts};
use crate::text::laws::law_a_separator_separates_parts;
use crate::text::{blank, join};
use vstd::prelude::*;

verus! {

// ------------------------------------------------------------------------------- names

/// Where the last `c` stands, if there is one.
proof fn lemma_last_at(s: Seq<char>, c: char, e: int)
    requires
        0 <= e <= s.len(),
    ensures
        -1 <= last_at(s, c, e) < e,
        forall|k: int| last_at(s, c, e) < k < e ==> #[trigger] s[k] != c,
        last_at(s, c, e) >= 0 ==> s[last_at(s, c, e)] == c,
    decreases e,
{
    if e > 0 && s[e - 1] != c {
        lemma_last_at(s, c, e - 1);
    }
}

/// A file is called by what stands before the last dot of its name, unless there is
/// nothing before it; a name without a dot stays as it is.
pub proof fn law_stem(name: Seq<char>, ext: Seq<char>)
    requires
        !ext.contains('.'),
    ensures
        name.len() > 0 ==> stem(name + seq!['.'] + ext) == name,
        stem(seq!['.'] + ext) == seq!['.'] + ext,
        stem(ext) == ext,
{
    let s = name + seq!['.'] + ext;
    let n = name.len() as int;
    lemma_last_at(s, '.', s.len() as int);
    assert(s[n] == '.');
    let i = last_at(s, '.', s.len() as int);
    assert forall|k: int| n < k < s.len() implies #[trigger] s[k] != '.' by {
        assert(s[k] == ext[k - n - 1]);
        assert(ext.contains(ext[k - n - 1]));
    }
    assert(i == n);
    assert(s.take(n) =~= name);
    let t = seq!['.'] + ext;
    lemma_last_at(t, '.', t.len() as int);
    assert forall|k: int| 0 < k < t.len() implies #[trigger] t[k] != '.' by {
        assert(t[k] == ext[k - 1]);
        assert(ext.contains(ext[k - 1]));
    }
    lemma_last_at(ext, '.', ext.len() as int);
    assert(last_at(ext, '.', ext.len() as int) == -1) by {
        let j = last_at(ext, '.', ext.len() as int);
        if j >= 0 {
            assert(ext.contains(ext[j]));
        }
    }
}

/// The segments that name something, with one more.
proof fn lemma_naming_push(v: Seq<Seq<char>>, s: Seq<char>)
    ensures
        naming(v.push(s)) == if s == ""@ || s == "."@ {
            naming(v)
        } else {
            naming(v).push(s)
        },
{
    assert(v.push(s).drop_last() =~= v);
    assert(v.push(s).last() == s);
}

/// A path names the file that stands behind its last slash. A slash or a dot behind that
/// does not matter, and `..` names no file.
pub proof fn law_file_name(dir: Seq<char>, name: Seq<char>)
    requires
        !name.contains('/'),
    ensures
        goes_down(name) ==> file_name(name) == Some(name) && file_name(dir + seq!['/'] + name)
            == Some(name),
        file_name(dir + seq!['/']) == file_name(dir),
        file_name(dir + seq!['/', '.']) == file_name(dir),
        file_name(dir + seq!['/', '.', '.']) is None,
{
    reveal_strlit("");
    reveal_strlit(".");
    reveal_strlit("..");
    lemma_parts_one(name, '/');
    let none = Seq::<Seq<char>>::empty();
    assert(seq![name] =~= none.push(name));
    lemma_naming_push(none, name);
    law_a_separator_separates_parts(dir, '/', name);
    let v = parts(dir, '/');
    assert(v + seq![name] =~= v.push(name));
    lemma_naming_push(v, name);
    lemma_behind(dir, ""@);
    assert(dir + seq!['/'] + ""@ =~= dir + seq!['/']);
    lemma_naming_push(v, ""@);
    lemma_behind(dir, "."@);
    assert(dir + seq!['/'] + "."@ =~= dir + seq!['/', '.']);
    lemma_naming_push(v, "."@);
    lemma_behind(dir, ".."@);
    assert(dir + seq!['/'] + ".."@ =~= dir + seq!['/', '.', '.']);
    lemma_naming_push(v, ".."@);
    assert(""@ =~= seq![]);
    assert("."@ =~= seq!['.']);
    assert(".."@.len() == 2);
}

/// One more segment.
proof fn lemma_behind(p: Seq<char>, s: Seq<char>)
    requires
        !s.contains('/'),
    ensures
        parts(p + seq!['/'] + s, '/') == parts(p, '/').push(s),
{
    law_a_separator_separates_parts(p, '/', s);
    lemma_parts_one(s, '/');
    assert(parts(p, '/') + seq![s] =~= parts(p, '/').push(s));
}

/// The folder of a path is what it has up to its last slash, and nothing where it has none.
pub proof fn law_folder(dir: Seq<char>, name: Seq<char>)
    requires
        !name.contains('/'),
    ensures
        folder(dir + seq!['/'] + name) == dir + seq!['/'],
        folder(name) == Seq::<char>::empty(),
{
    let s = dir + seq!['/'] + name;
    let n = dir.len() as int;
    lemma_last_at(s, '/', s.len() as int);
    assert(s[n] == '/');
    assert forall|k: int| n < k < s.len() implies #[trigger] s[k] != '/' by {
        assert(s[k] == name[k - n - 1]);
        assert(name.contains(name[k - n - 1]));
    }
    assert(folder(s) =~= dir + seq!['/']);
    lemma_last_at(name, '/', name.len() as int);
    let j = last_at(name, '/', name.len() as int);
    if j >= 0 {
        assert(name.contains(name[j]));
    }
    assert(folder(name) =~= Seq::<char>::empty());
}

// ------------------------------------------------------------------------------- paths

/// Segments lead on from where those before them lead.
proof fn lemma_resolved_push(v: Seq<Seq<char>>, s: Seq<char>)
    ensures
        resolved(v.push(s)) == if s == ""@ || s == "."@ {
            resolved(v)
        } else if s == ".."@ {
            if resolved(v).len() > 0 {
                resolved(v).drop_last()
            } else {
                resolved(v)
            }
        } else {
            resolved(v).push(s)
        },
{
    assert(v.push(s).drop_last() =~= v);
    assert(v.push(s).last() == s);
}

/// Segments that lead nowhere can be left out in front.
proof fn lemma_resolved_front(a: Seq<Seq<char>>, b: Seq<Seq<char>>)
    requires
        resolved(a).len() == 0,
    ensures
        resolved(a + b) == resolved(b),
    decreases b.len(),
{
    if b.len() == 0 {
        assert(a + b =~= a);
        assert(resolved(a) =~= resolved(b));
    } else {
        lemma_resolved_front(a, b.drop_last());
        assert((a + b).drop_last() =~= a + b.drop_last());
        assert((a + b).last() == b.last());
    }
}

/// Detours lead back: a step down and a step up cancel out, a step up at the start leads
/// nowhere, and empty segments and dots do not matter.
pub proof fn law_detours_lead_back(p: Seq<char>, s: Seq<char>)
    requires
        !s.contains('/'),
        goes_down(s),
    ensures
        plain_path(p + seq!['/'] + s + seq!['/', '.', '.']) == plain_path(p),
        plain_path(p + seq!['/', '.']) == plain_path(p),
        plain_path(p + seq!['/']) == plain_path(p),
        plain_path(seq!['/'] + p) == plain_path(p),
        plain_path(seq!['.', '.', '/'] + p) == plain_path(p),
{
    reveal_strlit("");
    reveal_strlit(".");
    reveal_strlit("..");
    let v = parts(p, '/');
    lemma_behind(p, s);
    let q = p + seq!['/'] + s;
    lemma_behind(q, ".."@);
    assert(q + seq!['/'] + ".."@ =~= q + seq!['/', '.', '.']);
    lemma_resolved_push(v, s);
    lemma_resolved_push(v.push(s), ".."@);
    assert(".."@ != ""@ && ".."@ != "."@) by {
        assert(".."@.len() == 2 && ""@.len() == 0 && "."@.len() == 1);
    }
    assert(resolved(v).push(s).drop_last() =~= resolved(v));
    lemma_behind(p, "."@);
    assert(p + seq!['/'] + "."@ =~= p + seq!['/', '.']);
    lemma_resolved_push(v, "."@);
    lemma_behind(p, ""@);
    assert(p + seq!['/'] + ""@ =~= p + seq!['/']);
    lemma_resolved_push(v, ""@);
    let none = Seq::<Seq<char>>::empty();
    law_a_separator_separates_parts(""@, '/', p);
    assert(""@ + seq!['/'] + p =~= seq!['/'] + p);
    lemma_parts_one(""@, '/');
    assert(seq![""@] =~= none.push(""@));
    lemma_resolved_push(none, ""@);
    lemma_resolved_front(seq![""@], v);
    law_a_separator_separates_parts(".."@, '/', p);
    assert(".."@ + seq!['/'] + p =~= seq!['.', '.', '/'] + p);
    lemma_parts_one(".."@, '/');
    assert(seq![".."@] =~= none.push(".."@));
    lemma_resolved_push(none, ".."@);
    lemma_resolved_front(seq![".."@], v);
}

/// A path without detours stays as it is.
pub proof fn law_plain_paths_stay(v: Seq<Seq<char>>)
    requires
        v.len() > 0,
        forall|k: int| 0 <= k < v.len() ==> goes_down(#[trigger] v[k]) && !v[k].contains('/'),
    ensures
        plain_path(join(v, seq!['/'])) == join(v, seq!['/']),
{
    super::paths::lemma_parts_of_join(v, '/');
    lemma_resolved_same(v);
}

// ------------------------------------------------------------------------------- kinds

/// What a file begins with tells its kind, whatever it is called; the name counts only
/// where that tells nothing, and capitals in it do not matter.
pub proof fn law_contents_tell_the_kind(filename: Seq<char>, bytes: Seq<u8>)
    ensures
        kind_of(filename, seq![0x25u8, 0x50, 0x44, 0x46] + bytes) == Some(Kind::Pdf),
        kind_of(filename, seq![0x50u8, 0x4b, 0x03, 0x04] + bytes) == Some(Kind::Epub),
        kind_of(lowercase(filename), bytes) == kind_of(filename, bytes),
        bytes.len() < 4 ==> kind_of(filename + ".pdf"@, bytes) == Some(Kind::Pdf) && kind_of(
            filename + ".epub"@,
            bytes,
        ) == Some(Kind::Epub),
{
    let a = seq![0x25u8, 0x50, 0x44, 0x46] + bytes;
    assert(a.subrange(0, 4) =~= seq![0x25u8, 0x50, 0x44, 0x46]);
    let b = seq![0x50u8, 0x4b, 0x03, 0x04] + bytes;
    assert(b.subrange(0, 4) =~= seq![0x50u8, 0x4b, 0x03, 0x04]);
    assert(!seq![0x25u8, 0x50, 0x44, 0x46].is_prefix_of(b)) by {
        assert(b.subrange(0, 4)[0] == 0x50);
    }
    assert(lowercase(lowercase(filename)) =~= lowercase(filename)) by {
        assert forall|c: char| lower(#[trigger] lower(c)) == lower(c) by {}
    }
    reveal_strlit(".pdf");
    reveal_strlit(".epub");
    let p = filename + ".pdf"@;
    let e = filename + ".epub"@;
    assert(lowercase(p).skip(lowercase(p).len() - 4) =~= ".pdf"@);
    assert(lowercase(e).skip(lowercase(e).len() - 5) =~= ".epub"@);
    assert(lowercase(p).subrange(lowercase(p).len() - 4, lowercase(p).len() as int) =~= ".pdf"@);
    assert(lowercase(e).subrange(lowercase(e).len() - 5, lowercase(e).len() as int) =~= ".epub"@);
    assert(!".pdf"@.is_suffix_of(lowercase(e))) by {
        let t = lowercase(e);
        assert(t[t.len() - 1] == 'b');
        if ".pdf"@.is_suffix_of(t) {
            assert(t.subrange(t.len() - 4, t.len() as int)[3] == ".pdf"@[3]);
        }
    }
}

// --------------------------------------------------------------------------- finishing

/// What was extracted keeps its sections, its language and its title. Only where the title
/// is blank, the name of the file without folders and extension comes in its place. A file
/// without sections is refused.
pub proof fn law_finishing_gives_a_title(filename: Seq<char>, ex: ExtractedView)
    ensures
        finished(filename, ex) is Ok <==> ex.sections.len() > 0,
        finished(filename, ex) matches Ok(r) ==> {
            &&& r.sections == ex.sections
            &&& r.lang == ex.lang
            &&& !blank(ex.title) ==> r.title == ex.title
            &&& blank(ex.title) && file_name(filename) is Some ==> r.title == stem(
                file_name(filename)->0,
            )
            &&& blank(ex.title) && file_name(filename) is None ==> r.title == "Sem título"@
        },
{
}

} // verus!
