//! What the paths of unpacked files are made of, character by character.

use crate::cli::Job;
use crate::output::{
    default_batch_output_text, default_output_text, entry_path, is_normal, is_separator, joined,
    lemma_joined_add, lemma_normal_only_add, lemma_pieces_around, lies_in, normal_only,
    output_path, pieces, refusal_text, safe_components, starts_as, starts_with_drive, text_view,
    text_views, with_backslashes, without_drive, BatchKind,
};
use crate::pck::EntryModel;
use crate::text::{ascii_lower, ascii_lowered};
use vstd::prelude::*;

verus! {

/// No slash and no backslash in `p`.
pub open spec fn unparted(p: Seq<char>) -> bool {
    forall|i: int| 0 <= i < p.len() ==> #[trigger] p[i] != '/' && p[i] != '\\'
}

/// `p` is none of the parts that are left out: nothing, `.`, `..`, and an ASCII
/// character with a colon.
pub open spec fn is_kept(p: Seq<char>) -> bool {
    &&& p.len() > 0
    &&& !(p.len() == 1 && p[0] == '.')
    &&& !(p.len() == 2 && p[0] == '.' && p[1] == '.')
    &&& !(p.len() == 2 && (p[0] as u32) < 128 && p[1] == ':')
}

/// `path` with a slash behind it, unless it is empty or has one.
pub open spec fn slashed(path: Seq<char>) -> Seq<char> {
    if path.len() > 0 && path[path.len() - 1] != '/' {
        path + seq!['/']
    } else {
        path
    }
}

/// `name` without the letter and colon that it may start with.
pub open spec fn drive_dropped(name: Seq<char>) -> Seq<char> {
    if name.len() >= 2 && name[1] == ':' && (65 <= name[0] as int <= 90 || 97 <= name[0] as int
        <= 122) {
        name.subrange(2, name.len() as int)
    } else {
        name
    }
}

/// The parts with `c` between each two.
pub open spec fn chained(parts: Seq<Seq<char>>, c: char) -> Seq<char>
    decreases parts.len(),
{
    if parts.len() == 0 {
        seq![]
    } else if parts.len() == 1 {
        parts[0]
    } else {
        chained(parts.drop_last(), c) + seq![c] + parts.last()
    }
}

/// A text without separators is one piece.
proof fn lemma_one_piece(p: Seq<char>)
    requires
        unparted(p),
    ensures
        pieces(p) == seq![p],
    decreases p.len(),
{
    if p.len() == 0 {
        assert(p =~= seq![]);
        assert(pieces(p) =~= seq![p]);
    } else {
        let before = p.drop_last();
        assert(unparted(before)) by {
            assert forall|i: int| 0 <= i < before.len() implies #[trigger] before[i] != '/'
                && before[i] != '\\' by {
                assert(p[i] != '/');
            }
        }
        lemma_one_piece(before);
        assert(p[p.len() - 1] != '/');
        assert(before.push(p.last()) =~= p);
        assert(pieces(p) =~= seq![p]);
    }
}

/// What is kept of one piece.
proof fn lemma_one_kept(p: Seq<char>)
    ensures
        is_kept(p) <==> is_normal(p),
        normal_only(seq![p]) == (if is_kept(p) {
            seq![p]
        } else {
            seq![]
        }),
{
    let dot = seq!['.'];
    let dots = seq!['.', '.'];
    assert(p == dot <==> p.len() == 1 && p[0] == '.') by {
        if p.len() == 1 && p[0] == '.' {
            assert(p =~= dot);
        }
    }
    assert(p == dots <==> p.len() == 2 && p[0] == '.' && p[1] == '.') by {
        if p.len() == 2 && p[0] == '.' && p[1] == '.' {
            assert(p =~= dots);
        }
    }
    assert(is_kept(p) <==> is_normal(p));
    assert(seq![p].last() == p);
    assert(seq![p].drop_last() =~= Seq::<Seq<char>>::empty());
    reveal_with_fuel(normal_only, 2);
    assert(normal_only(seq![p]) =~= if is_kept(p) {
        seq![p]
    } else {
        seq![]
    });
}

/// A path with one part more, or with none.
proof fn lemma_joined_one(base: Seq<char>, p: Seq<char>)
    ensures
        joined(base, seq![p]) == slashed(base) + p,
        joined(base, Seq::<Seq<char>>::empty()) == base,
{
    reveal_with_fuel(joined, 2);
    assert(seq![p].drop_last() =~= Seq::<Seq<char>>::empty());
    assert(joined(base, seq![p]) =~= slashed(base) + p);
}

/// A name without separators goes to the base with a slash and the whole name
/// behind it; a drive at its start is dropped, and what names nothing adds
/// nothing.
pub proof fn law_plain_name_is_put_below_the_base(base: Seq<char>, name: Seq<char>)
    requires
        unparted(name),
    ensures
        output_path(base, name) == (if is_kept(drive_dropped(name)) {
            slashed(base) + drive_dropped(name)
        } else {
            base
        }),
{
    let p = drive_dropped(name);
    assert(unparted(p)) by {
        assert forall|i: int| 0 <= i < p.len() implies #[trigger] p[i] != '/' && p[i] != '\\' by {
            if p.len() < name.len() {
                assert(p[i] == name[i + 2]);
            }
        }
    }
    assert(name.len() >= 2 ==> name.subrange(2, name.len() as int) =~= name.skip(2));
    lemma_one_piece(p);
    lemma_one_kept(p);
    lemma_joined_one(base, p);
}

/// What stands behind the last separator of a name is put, whole, behind where
/// the rest of the name leads, with a slash between them; what names nothing
/// adds nothing. Slash and backslash do the same.
pub proof fn law_last_part_is_put_behind_the_rest(
    base: Seq<char>,
    rest: Seq<char>,
    c: char,
    last: Seq<char>,
)
    requires
        c == '/' || c == '\\',
        unparted(last),
    ensures
        output_path(base, rest + seq![c] + last) == (if is_kept(last) {
            slashed(output_path(base, rest)) + last
        } else {
            output_path(base, rest)
        }),
{
    let name = rest + seq![c] + last;
    let stem = without_drive(rest);
    assert(starts_with_drive(name) == starts_with_drive(rest)) by {
        if rest.len() >= 2 {
            assert(name[0] == rest[0] && name[1] == rest[1]);
        } else if rest.len() == 1 {
            assert(name[1] == c);
        } else {
            assert(name[0] == c);
        }
    }
    assert(without_drive(name) =~= stem.push(c) + last);
    lemma_pieces_around(stem, c, last);
    lemma_one_piece(last);
    lemma_normal_only_add(pieces(stem), seq![last]);
    lemma_one_kept(last);
    let parts = safe_components(rest);
    if is_kept(last) {
        lemma_joined_add(base, parts, seq![last]);
        lemma_joined_one(output_path(base, rest), last);
    } else {
        assert(parts + Seq::<Seq<char>>::empty() =~= parts);
    }
}

/// A name made of parts with backslashes between them, none of which is left
/// out, leads to the base with just these parts behind it, in order and whole,
/// with slashes between them.
pub proof fn law_name_of_parts_keeps_its_parts(base: Seq<char>, parts: Seq<Seq<char>>)
    requires
        parts.len() > 0,
        forall|i: int| 0 <= i < parts.len() ==> is_kept(#[trigger] parts[i]) && unparted(parts[i]),
        drive_dropped(parts[0]) == parts[0],
    ensures
        output_path(base, chained(parts, '\\')) == slashed(base) + chained(parts, '/'),
    decreases parts.len(),
{
    assert(is_kept(parts[0]) && unparted(parts[0]));
    if parts.len() == 1 {
        law_plain_name_is_put_below_the_base(base, parts[0]);
    } else {
        let before = parts.drop_last();
        let last = parts.last();
        assert(is_kept(parts[parts.len() - 1]) && unparted(parts[parts.len() - 1]));
        assert forall|i: int| 0 <= i < before.len() implies is_kept(#[trigger] before[i])
            && unparted(before[i]) by {
            assert(is_kept(parts[i]));
        }
        law_name_of_parts_keeps_its_parts(base, before);
        law_last_part_is_put_behind_the_rest(base, chained(before, '\\'), '\\', last);
        let o = slashed(base) + chained(before, '/');
        lemma_chained_end(before);
        assert(o[o.len() - 1] == chained(before, '/')[chained(before, '/').len() - 1]);
        assert(slashed(o) + last =~= slashed(base) + chained(parts, '/'));
    }
}

/// A chain of parts ends with a character of its last part.
proof fn lemma_chained_end(parts: Seq<Seq<char>>)
    requires
        parts.len() > 0,
        forall|i: int| 0 <= i < parts.len() ==> is_kept(#[trigger] parts[i]) && unparted(parts[i]),
    ensures
        chained(parts, '/').len() > 0,
        chained(parts, '/')[chained(parts, '/').len() - 1] != '/',
{
    let last = parts[parts.len() - 1];
    assert(is_kept(last) && unparted(last));
    assert(last[last.len() - 1] != '/');
    let c = chained(parts, '/');
    assert(c[c.len() - 1] == last[last.len() - 1]);
}

/// A path of parts: the base, a slash if it has none, and the parts with slashes
/// between them.
pub proof fn law_joined_parts_are_chained(base: Seq<char>, parts: Seq<Seq<char>>)
    requires
        forall|i: int|
            0 <= i < parts.len() ==> (#[trigger] parts[i]).len() > 0 && parts[i].last() != '/',
    ensures
        parts.len() == 0 ==> joined(base, parts) == base,
        parts.len() > 0 ==> joined(base, parts) == slashed(base) + chained(parts, '/'),
    decreases parts.len(),
{
    if parts.len() == 1 {
        assert(parts =~= seq![parts[0]]);
        lemma_joined_one(base, parts[0]);
    } else if parts.len() > 1 {
        let before = parts.drop_last();
        let last = parts.last();
        assert forall|i: int| 0 <= i < before.len() implies (#[trigger] before[i]).len() > 0
            && before[i].last() != '/' by {
            assert(parts[i].len() > 0 && parts[i].last() != '/');
        }
        law_joined_parts_are_chained(base, before);
        let o = joined(base, before);
        let end = before.last();
        assert(before[before.len() - 1].len() > 0 && before[before.len() - 1].last() != '/');
        assert(o[o.len() - 1] == end[end.len() - 1]);
        assert(parts =~= before + seq![last]);
        lemma_joined_add(base, before, seq![last]);
        lemma_joined_one(o, last);
        assert(slashed(o) + last =~= slashed(base) + chained(parts, '/'));
    }
}

/// The piece with the number `k` is the stretch of `s` from `starts[k]` on, which
/// holds no separator, and stands one separator behind the piece before it.
pub open spec fn is_stretch(
    s: Seq<char>,
    parts: Seq<Seq<char>>,
    starts: Seq<int>,
    k: int,
) -> bool {
    &&& 0 <= starts[k]
    &&& starts[k] + parts[k].len() <= s.len()
    &&& s.subrange(starts[k], starts[k] + parts[k].len()) == parts[k]
    &&& unparted(parts[k])
    &&& k > 0 ==> starts[k] == starts[k - 1] + parts[k - 1].len() + 1 && (s[starts[k] - 1] == '/'
        || s[starts[k] - 1] == '\\')
}

/// The pieces of a text are the whole stretches between its separators: put
/// one behind the other, each with one separator behind it but the last, they
/// are the text. `starts` says where they start.
pub proof fn law_pieces_are_whole_stretches(s: Seq<char>) -> (starts: Seq<int>)
    ensures
        starts.len() == pieces(s).len(),
        pieces(s).len() > 0,
        starts[0] == 0,
        starts.last() + pieces(s).last().len() == s.len(),
        forall|k: int| 0 <= k < pieces(s).len() ==> #[trigger] is_stretch(s, pieces(s), starts, k),
    decreases s.len(),
{
    if s.len() == 0 {
        let starts = seq![0int];
        assert(s.subrange(0, 0) =~= seq![]);
        starts
    } else {
        let t = s.drop_last();
        let c = s.last();
        let before = law_pieces_are_whole_stretches(t);
        let was = pieces(t);
        let now = pieces(s);
        let n = was.len() as int;
        let starts = if is_separator(c) {
            before.push(s.len() as int)
        } else {
            before
        };
        assert forall|k: int| 0 <= k < now.len() implies #[trigger] is_stretch(s, now, starts, k) by {
            if k < n {
                assert(is_stretch(t, was, before, k));
                if k > 0 {
                    assert(is_stretch(t, was, before, k - 1));
                    assert(now[k - 1] == was[k - 1]);
                    assert(s[starts[k] - 1] == t[starts[k] - 1]);
                }
                let old_stretch = t.subrange(before[k], before[k] + was[k].len());
                if k < n - 1 || is_separator(c) {
                    assert(now[k] == was[k]);
                    assert(s.subrange(starts[k], starts[k] + now[k].len()) =~= old_stretch);
                } else {
                    assert(now[k] == was[k].push(c));
                    assert(s.subrange(starts[k], starts[k] + now[k].len()) =~= old_stretch.push(c));
                }
            } else {
                assert(is_stretch(t, was, before, n - 1));
                assert(now[k] =~= seq![]);
                assert(s.subrange(starts[k], starts[k]) =~= seq![]);
                assert(now[k - 1] == was[n - 1]);
            }
        }
        starts
    }
}

/// An entry goes where its name leads below the output directory, or below where
/// the name of its target package leads.
pub proof fn law_entry_goes_below_its_target(output: Seq<char>, e: EntryModel<Seq<char>>)
    ensures
        e.package_name is None ==> entry_path(output, e) == output_path(output, e.name),
        e.package_name is Some ==> entry_path(output, e) == output_path(
            output_path(output, e.package_name->0),
            e.name,
        ),
{
}

/// A path lies in the tree of a directory if and only if it starts with the
/// characters of the directory, slash and backslash being one, and either ends
/// there or goes on with a separator; or the directory is empty or ends with a
/// separator itself.
pub proof fn law_tree_is_told_by_characters(path: Seq<char>, dir: Seq<char>)
    ensures
        lies_in(path, dir) <==> {
            &&& path.len() >= dir.len()
            &&& forall|i: int|
                #![trigger path[i]]
                #![trigger dir[i]]
                0 <= i < dir.len() ==> path[i] == dir[i] || (path[i] == '/' || path[i] == '\\') && (
                dir[i] == '/' || dir[i] == '\\')
            &&& path.len() == dir.len() || dir.len() == 0 || dir[dir.len() - 1] == '/' || dir[
            dir.len() - 1] == '\\' || path[dir.len() as int] == '/' || path[dir.len() as int]
                == '\\'
        },
{
    let a = with_backslashes(path);
    let b = with_backslashes(dir);
    if path.len() >= dir.len() {
        assert(starts_as(path, dir) <==> forall|i: int| 0 <= i < dir.len() ==> #[trigger] a[i]
            == b[i]) by {
            if starts_as(path, dir) {
                assert forall|i: int| 0 <= i < dir.len() implies #[trigger] a[i] == b[i] by {
                    assert(a.subrange(0, b.len() as int)[i] == b[i]);
                }
            }
            if forall|i: int| 0 <= i < dir.len() ==> #[trigger] a[i] == b[i] {
                assert(a.subrange(0, b.len() as int) =~= b);
            }
        }
        assert forall|i: int|
            #![trigger path[i]]
            #![trigger dir[i]]
            0 <= i < dir.len() implies (a[i] == b[i]) == (path[i] == dir[i] || (path[i] == '/'
            || path[i] == '\\') && (dir[i] == '/' || dir[i] == '\\')) by {}
        if forall|i: int|
            #![trigger path[i]]
            #![trigger dir[i]]
            0 <= i < dir.len() ==> path[i] == dir[i] || (path[i] == '/' || path[i] == '\\') && (
            dir[i] == '/' || dir[i] == '\\') {
            assert forall|i: int| 0 <= i < dir.len() implies #[trigger] a[i] == b[i] by {
                assert(path[i] == path[i]);
            }
        }
        if forall|i: int| 0 <= i < dir.len() ==> #[trigger] a[i] == b[i] {
            assert forall|i: int|
                #![trigger path[i]]
                #![trigger dir[i]]
                0 <= i < dir.len() implies path[i] == dir[i] || (path[i] == '/' || path[i] == '\\')
                && (dir[i] == '/' || dir[i] == '\\') by {
                assert(a[i] == b[i]);
            }
        }
    }
}

/// Lower case, character by character: `A` to `Z` move by 32, all else stays.
pub proof fn law_ascii_lower_case(s: Seq<char>, c: char)
    ensures
        65 <= c as int <= 90 ==> ascii_lower(c) as int == c as int + 32,
        !(65 <= c as int <= 90) ==> ascii_lower(c) == c,
        ascii_lowered(s).len() == s.len(),
        forall|i: int| 0 <= i < s.len() ==> #[trigger] ascii_lowered(s)[i] == ascii_lower(s[i]),
{
}

/// The directories that are written to unless told otherwise, and the words of a
/// refusal.
pub proof fn law_default_directories(name: Seq<char>, dir: Seq<char>)
    ensures
        default_output_text(Some(name)) == name + "_unpacked"@,
        default_output_text(None) == "unpacked"@ + "_unpacked"@,
        default_batch_output_text(Some(name), BatchKind::Packages) == name
            + "_packages_unpacked"@,
        default_batch_output_text(Some(name), BatchKind::Patches) == name + "_patches_unpacked"@,
        default_batch_output_text(None, BatchKind::Packages) == "unpacked"@
            + "_packages_unpacked"@,
        default_batch_output_text(None, BatchKind::Patches) == "unpacked"@ + "_patches_unpacked"@,
        refusal_text(name, dir) == "输出目录 "@ + name + " 位于包文件所在目录 "@ + dir
            + " 内（游戏目录只读，请用 -o 指定其他位置）"@,
{
}

/// The values of texts and jobs hold the texts as they are.
pub proof fn law_text_views_keep_every_text(texts: Seq<String>, t: Option<&str>, job: Job, i: int)
    ensures
        text_views(texts).len() == texts.len(),
        0 <= i < texts.len() ==> text_views(texts)[i] == texts[i]@,
        t is Some <==> text_view(t) is Some,
        t is Some ==> text_view(t)->0 == t->0@,
        job is Single ==> job@ is Single && job@->Single_0 == job->Single_0@,
        job is Batch ==> job@ is Batch && job@->Batch_0 == job->Batch_0 && job@->Batch_1
            == job->Batch_1@,
{
}

} // verus!
