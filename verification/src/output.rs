//! Where unpacked files go.
//!
//! Paths are texts with `/` between their parts, which every platform takes.

use crate::pck::{Entry, EntryModel};
use crate::text::{ascii_lower, ascii_lowered, characters, is_ascii_text};
use vstd::prelude::*;

verus! {

/// `c` parts a path in an entry name.
pub open spec fn is_separator(c: char) -> bool {
    c == '/' || c == '\\'
}

/// The parts of `s` between separators.
pub open spec fn pieces(s: Seq<char>) -> Seq<Seq<char>>
    decreases s.len(),
{
    if s.len() == 0 {
        seq![seq![]]
    } else {
        let before = pieces(s.drop_last());
        if is_separator(s.last()) {
            before.push(seq![])
        } else {
            before.drop_last().push(before.last().push(s.last()))
        }
    }
}

/// `p` is a drive such as `C:`.
pub open spec fn is_drive(p: Seq<char>) -> bool {
    p.len() == 2 && (p[0] as u32) < 0x80 && p[1] == ':'
}

/// `p` names a file or directory: it is not empty, `.`, `..` or a drive.
pub open spec fn is_normal(p: Seq<char>) -> bool {
    p.len() > 0 && p != seq!['.'] && p != seq!['.', '.'] && !is_drive(p)
}

/// The elements of `ps` that name a file or directory.
pub open spec fn normal_only(ps: Seq<Seq<char>>) -> Seq<Seq<char>>
    decreases ps.len(),
{
    if ps.len() == 0 {
        seq![]
    } else {
        let before = normal_only(ps.drop_last());
        if is_normal(ps.last()) {
            before.push(ps.last())
        } else {
            before
        }
    }
}

/// `c` is an ASCII letter.
pub open spec fn is_letter(c: char) -> bool {
    'a' <= c <= 'z' || 'A' <= c <= 'Z'
}

/// `name` starts with a drive such as `C:`.
pub open spec fn starts_with_drive(name: Seq<char>) -> bool {
    name.len() >= 2 && is_letter(name[0]) && name[1] == ':'
}

/// `name` without the drive that it starts with, if it starts with one.
pub open spec fn without_drive(name: Seq<char>) -> Seq<char> {
    if starts_with_drive(name) {
        name.skip(2)
    } else {
        name
    }
}

/// The parts of an entry name that name files or directories.
pub open spec fn safe_components(name: Seq<char>) -> Seq<Seq<char>> {
    normal_only(pieces(without_drive(name)))
}

/// The path `base` with one more part.
pub open spec fn extended(base: Seq<char>, part: Seq<char>) -> Seq<char> {
    if base.len() == 0 || base.last() == '/' {
        base + part
    } else {
        base.push('/') + part
    }
}

/// The path `base` with `parts` behind it.
pub open spec fn joined(base: Seq<char>, parts: Seq<Seq<char>>) -> Seq<char>
    decreases parts.len(),
{
    if parts.len() == 0 {
        base
    } else {
        extended(joined(base, parts.drop_last()), parts.last())
    }
}

/// Where the entry `name` goes below `base`.
pub open spec fn output_path(base: Seq<char>, name: Seq<char>) -> Seq<char> {
    joined(base, safe_components(name))
}

/// One more part extends the path.
proof fn lemma_joined_push(base: Seq<char>, parts: Seq<Seq<char>>, part: Seq<char>)
    ensures
        joined(base, parts.push(part)) == extended(joined(base, parts), part),
{
    assert(parts.push(part).drop_last() =~= parts);
}

/// Whether `p` names a file or directory.
fn names_something(p: &Vec<char>) -> (res: bool)
    ensures
        res == is_normal(p@),
{
    if p.len() == 0 {
        return false;
    }
    if p.len() == 1 {
        proof {
            assert(p@ =~= seq![p@[0]]);
            assert(seq!['.'].len() == 1 && seq!['.'][0] == '.');
            assert(seq!['.', '.'].len() == 2);
        }
        return p[0] != '.';
    }
    if p.len() == 2 {
        proof {
            assert(p@ =~= seq![p@[0], p@[1]]);
            assert(seq!['.', '.'][0] == '.' && seq!['.', '.'][1] == '.');
            assert(seq!['.'].len() == 1);
        }
        return !(p[0] == '.' && p[1] == '.') && !((p[0] as u32) < 0x80 && p[1] == ':');
    }
    true
}

/// Whether nothing has to stand between the path `s` and a part behind it.
fn ends_open(s: &str) -> (res: bool)
    ensures
        res == (s@.len() == 0 || s@.last() == '/'),
{
    let mut last: char = '/';
    for c in it: s.chars()
        invariant
            it.seq() == s@,
            it.index() == 0 ==> last == '/',
            it.index() > 0 ==> last == s@[it.index() - 1],
    {
        last = c;
    }
    last == '/'
}

/// Appends `part` to the path `out`.
fn push_part(out: &mut String, part: &Vec<char>)
    ensures
        final(out)@ == extended(old(out)@, part@),
{
    if !ends_open(out.as_str()) {
        out.push('/');
    }
    let ghost start = out@;
    for i in 0..part.len()
        invariant
            out@ == start + part@.take(i as int),
    {
        out.push(part[i]);
        proof {
            assert(out@ =~= start + part@.take(i + 1));
        }
    }
    proof {
        assert(part@.take(part@.len() as int) =~= part@);
    }
}

/// Where the part of `name` starts that names something: behind its drive.
fn drive_end(name: &Vec<char>) -> (res: usize)
    ensures
        res <= name@.len(),
        name@.skip(res as int) == without_drive(name@),
{
    let drive: bool = name.len() >= 2 && ('a' <= name[0] && name[0] <= 'z' || 'A' <= name[0]
        && name[0] <= 'Z') && name[1] == ':';
    proof {
        assert(name@.skip(0) =~= name@);
    }
    if drive {
        2
    } else {
        0
    }
}

/// Where an entry goes below `base`. Backslashes part the name as slashes do.
/// A drive at the start of the name, `..`, `.`, empty parts and parts such as
/// `C:` are left out, so that no name leads out of `base`.
pub fn safe_output_path(base: &str, entry_name: &str) -> (res: String)
    ensures
        res@ == output_path(base@, entry_name@),
{
    let mut out: String = base.to_owned();
    let mut piece: Vec<char> = Vec::new();
    let all: Vec<char> = characters(entry_name);
    let start: usize = drive_end(&all);
    let ghost name = without_drive(entry_name@);
    proof {
        assert(name.take(0) =~= Seq::empty());
        assert(pieces(name.take(0)).drop_last() =~= Seq::empty());
        assert(piece@ =~= pieces(name.take(0)).last());
    }
    for k in start..all.len()
        invariant
            start <= all@.len(),
            name == all@.skip(start as int),
            pieces(name.take(k - start)).len() > 0,
            piece@ == pieces(name.take(k - start)).last(),
            out@ == joined(base@, normal_only(pieces(name.take(k - start)).drop_last())),
    {
        let c: char = all[k];
        let ghost i = k - start;
        let ghost before = pieces(name.take(i));
        proof {
            assert(name.take(i + 1).drop_last() =~= name.take(i));
            assert(name.take(i + 1).last() == c);
        }
        if c == '/' || c == '\\' {
            if names_something(&piece) {
                push_part(&mut out, &piece);
            }
            piece = Vec::new();
            proof {
                assert(before.push(seq![]).drop_last() =~= before);
                lemma_joined_push(base@, normal_only(before.drop_last()), before.last());
            }
        } else {
            piece.push(c);
            proof {
                let next = before.drop_last().push(before.last().push(c));
                assert(next.drop_last() =~= before.drop_last());
            }
        }
    }
    proof {
        assert(name.take(name.len() as int) =~= name);
        let all_pieces = pieces(name);
        lemma_joined_push(base@, normal_only(all_pieces.drop_last()), all_pieces.last());
    }
    if names_something(&piece) {
        push_part(&mut out, &piece);
    }
    out
}

/// The pieces of a text hold no separator.
proof fn lemma_pieces(s: Seq<char>)
    ensures
        pieces(s).len() > 0,
        forall|i: int, j: int|
            0 <= i < pieces(s).len() && 0 <= j < pieces(s)[i].len() ==> !is_separator(
                #[trigger] pieces(s)[i][j],
            ),
    decreases s.len(),
{
    if s.len() > 0 {
        let before = pieces(s.drop_last());
        lemma_pieces(s.drop_last());
        let all = pieces(s);
        assert forall|i: int, j: int| 0 <= i < all.len() && 0 <= j < all[i].len() implies
            !is_separator(#[trigger] all[i][j]) by {
            if i < before.len() - 1 {
                assert(all[i] == before[i]);
                assert(!is_separator(before[i][j]));
            } else if !is_separator(s.last()) {
                let last = before.last();
                if j < last.len() {
                    assert(!is_separator(before[before.len() - 1][j]));
                }
            } else if i == before.len() - 1 {
                assert(!is_separator(before[i][j]));
            }
        }
    }
}

/// What [`normal_only`] keeps is normal, and was there before.
proof fn lemma_normal_only(ps: Seq<Seq<char>>, i: int)
    requires
        0 <= i < normal_only(ps).len(),
    ensures
        is_normal(normal_only(ps)[i]),
        ps.contains(normal_only(ps)[i]),
    decreases ps.len(),
{
    let before = normal_only(ps.drop_last());
    if i < before.len() {
        lemma_normal_only(ps.drop_last(), i);
        let k = choose|k: int|
            0 <= k < ps.drop_last().len() && ps.drop_last()[k] == before[i];
        assert(ps[k] == before[i]);
    } else {
        assert(ps[ps.len() - 1] == ps.last());
    }
}

/// A joined path starts with its base.
proof fn lemma_joined_prefix(base: Seq<char>, parts: Seq<Seq<char>>)
    ensures
        base.is_prefix_of(joined(base, parts)),
    decreases parts.len(),
{
    if parts.len() > 0 {
        lemma_joined_prefix(base, parts.drop_last());
        let before = joined(base, parts.drop_last());
        let all = joined(base, parts);
        assert(all.take(before.len() as int) =~= before);
        assert(all.subrange(0, base.len() as int) =~= before.subrange(0, base.len() as int));
    }
}

/// No entry name leads out of the output directory: the path is that directory
/// with parts behind it, none of which is empty, `.`, `..` or a drive, or holds
/// a separator.
pub proof fn law_output_path_stays_below_base(base: Seq<char>, name: Seq<char>)
    ensures
        output_path(base, name) == joined(base, safe_components(name)),
        base.is_prefix_of(output_path(base, name)),
        forall|i: int|
            0 <= i < safe_components(name).len() ==> is_normal(#[trigger] safe_components(name)[i]),
        forall|i: int, j: int|
            0 <= i < safe_components(name).len() && 0 <= j < safe_components(name)[i].len()
                ==> !is_separator(#[trigger] safe_components(name)[i][j]),
{
    let parts = safe_components(name);
    let whole = pieces(without_drive(name));
    lemma_joined_prefix(base, parts);
    lemma_pieces(without_drive(name));
    assert forall|i: int| 0 <= i < parts.len() implies is_normal(#[trigger] parts[i]) by {
        lemma_normal_only(whole, i);
    }
    assert forall|i: int, j: int| 0 <= i < parts.len() && 0 <= j < parts[i].len() implies
        !is_separator(#[trigger] parts[i][j]) by {
        lemma_normal_only(whole, i);
        let k = choose|k: int| 0 <= k < whole.len() && whole[k] == parts[i];
        assert(!is_separator(whole[k][j]));
    }
}

/// Parts in a row are joined one row behind the other.
pub proof fn lemma_joined_add(base: Seq<char>, a: Seq<Seq<char>>, b: Seq<Seq<char>>)
    ensures
        joined(base, a + b) == joined(joined(base, a), b),
    decreases b.len(),
{
    if b.len() == 0 {
        assert(a + b =~= a);
    } else {
        lemma_joined_add(base, a, b.drop_last());
        assert((a + b).drop_last() =~= a + b.drop_last());
    }
}

/// A separator parts a text into what stands before and behind it.
pub proof fn lemma_pieces_around(a: Seq<char>, c: char, b: Seq<char>)
    requires
        is_separator(c),
    ensures
        pieces(a.push(c) + b) == pieces(a) + pieces(b),
    decreases b.len(),
{
    let whole = a.push(c) + b;
    assert(whole.last() == if b.len() == 0 {
        c
    } else {
        b.last()
    });
    if b.len() == 0 {
        assert(whole.drop_last() =~= a);
        assert(pieces(whole) =~= pieces(a) + pieces(b));
    } else {
        lemma_pieces_around(a, c, b.drop_last());
        lemma_pieces(b.drop_last());
        assert(whole.drop_last() =~= a.push(c) + b.drop_last());
        assert(pieces(whole) =~= pieces(a) + pieces(b));
    }
}

/// What names something among parts in a row.
pub proof fn lemma_normal_only_add(a: Seq<Seq<char>>, b: Seq<Seq<char>>)
    ensures
        normal_only(a + b) == normal_only(a) + normal_only(b),
    decreases b.len(),
{
    if b.len() == 0 {
        assert(a + b =~= a);
        assert(normal_only(a) + normal_only(b) =~= normal_only(a));
    } else {
        lemma_normal_only_add(a, b.drop_last());
        assert((a + b).drop_last() =~= a + b.drop_last());
        assert(normal_only(a + b) =~= normal_only(a) + normal_only(b));
    }
}

/// Nothing, and a drive alone, name nothing.
proof fn lemma_drive_piece(p: Seq<char>)
    requires
        p.len() == 0 || (p.len() == 2 && starts_with_drive(p)),
    ensures
        normal_only(pieces(p)) == Seq::<Seq<char>>::empty(),
{
    reveal_with_fuel(pieces, 3);
    reveal_with_fuel(normal_only, 2);
    if p.len() == 2 {
        let first = p.drop_last();
        assert(first.drop_last() =~= Seq::empty());
        assert(first.last() == p[0]);
        assert(pieces(p) =~= seq![p]) by {
            assert(pieces(first) =~= seq![first]) by {
                assert(Seq::<char>::empty().push(p[0]) =~= first);
            }
            assert(first.push(p[1]) =~= p);
        }
        assert(is_drive(p));
    } else {
        assert(p =~= seq![]);
    }
    assert(pieces(p) =~= seq![p]);
    assert(seq![p].drop_last() =~= Seq::<Seq<char>>::empty());
}

/// Behind a separator, a name that does not run on after a drive is cleaned as
/// it is alone.
proof fn lemma_whole_drive(b: Seq<char>)
    requires
        starts_with_drive(b) ==> b.len() == 2 || is_separator(b[2]),
    ensures
        normal_only(pieces(b)) == safe_components(b),
{
    if starts_with_drive(b) {
        let drive = b.take(2);
        lemma_drive_piece(drive);
        lemma_drive_piece(Seq::empty());
        if b.len() == 2 {
            assert(drive =~= b);
            assert(b.skip(2) =~= Seq::empty());
        } else {
            let rest = b.skip(3);
            lemma_pieces_around(drive, b[2], rest);
            lemma_pieces_around(Seq::empty(), b[2], rest);
            assert(b =~= drive.push(b[2]) + rest);
            assert(b.skip(2) =~= Seq::<char>::empty().push(b[2]) + rest);
            lemma_normal_only_add(pieces(drive), pieces(rest));
            lemma_normal_only_add(pieces(Seq::empty()), pieces(rest));
        }
    }
}

/// To clean a name piece by piece gives the same path as to clean the joined
/// name, unless the second piece runs on directly after a drive, as `C:x` does.
pub proof fn law_pieces_are_cleaned_as_a_whole(base: Seq<char>, a: Seq<char>, b: Seq<char>)
    requires
        starts_with_drive(b) ==> b.len() == 2 || is_separator(b[2]),
    ensures
        output_path(output_path(base, a), b) == output_path(base, a.push('\\') + b),
{
    let whole = a.push('\\') + b;
    let first = without_drive(a);
    assert(starts_with_drive(whole) == starts_with_drive(a)) by {
        if a.len() >= 2 {
            assert(whole[0] == a[0] && whole[1] == a[1]);
        } else if a.len() == 1 {
            assert(whole[1] == '\\');
        } else {
            assert(whole[0] == '\\');
        }
    }
    assert(without_drive(whole) =~= first.push('\\') + b);
    lemma_pieces_around(first, '\\', b);
    lemma_normal_only_add(pieces(first), pieces(b));
    lemma_whole_drive(b);
    lemma_joined_add(base, safe_components(a), safe_components(b));
}

/// `c`, or a slash for a backslash.
pub open spec fn with_slash(c: char) -> char {
    if c == '\\' {
        '/'
    } else {
        c
    }
}

/// `s` with slashes for backslashes.
pub open spec fn with_slashes(s: Seq<char>) -> Seq<char> {
    Seq::new(s.len(), |i: int| with_slash(s[i]))
}

/// Slashes part a text where backslashes do.
proof fn lemma_pieces_with_slashes(s: Seq<char>)
    ensures
        pieces(with_slashes(s)) == pieces(s),
    decreases s.len(),
{
    if s.len() > 0 {
        lemma_pieces_with_slashes(s.drop_last());
        assert(with_slashes(s).drop_last() =~= with_slashes(s.drop_last()));
    }
}

/// A backslash in an entry name means the same as a slash.
pub proof fn law_backslash_is_a_separator(base: Seq<char>, name: Seq<char>)
    ensures
        output_path(base, with_slashes(name)) == output_path(base, name),
{
    lemma_pieces_with_slashes(without_drive(name));
    assert(without_drive(with_slashes(name)) =~= with_slashes(without_drive(name)));
}

/// Where an entry is written below `output`: an entry of a `.patch` below the
/// directory of its target package, any other directly.
pub open spec fn entry_path(output: Seq<char>, e: EntryModel<Seq<char>>) -> Seq<char> {
    match e.package_name {
        None => output_path(output, e.name),
        Some(p) => output_path(output_path(output, p), e.name),
    }
}

/// Where an entry is written below `output`.
pub fn entry_output_path(output: &str, e: &Entry) -> (res: String)
    ensures
        res@ == entry_path(output@, e@),
{
    match &e.package_name {
        None => safe_output_path(output, e.name.as_str()),
        Some(p) => {
            let dir: String = safe_output_path(output, p.as_str());
            safe_output_path(dir.as_str(), e.name.as_str())
        },
    }
}

/// An entry of a `.patch` is written to `<output>/<target package>/<name>`.
pub proof fn law_patch_entry_goes_below_its_package(
    output: Seq<char>,
    e: EntryModel<Seq<char>>,
    package: Seq<char>,
)
    requires
        e.package_name == Some(package),
    ensures
        entry_path(output, e) == joined(
            output,
            safe_components(package) + safe_components(e.name),
        ),
{
    lemma_joined_add(output, safe_components(package), safe_components(e.name));
}

/// The directory for a package file with this name, its extension taken off.
pub open spec fn default_output_text(stem: Option<Seq<char>>) -> Seq<char> {
    match stem {
        None => "unpacked"@ + "_unpacked"@,
        Some(s) => s + "_unpacked"@,
    }
}

/// The view of an optional text.
pub open spec fn text_view(t: Option<&str>) -> Option<Seq<char>> {
    match t {
        None => None,
        Some(s) => Some(s@),
    }
}

/// Where a single package goes unless told otherwise, by the name of its file
/// without the extension.
pub fn default_output(stem: Option<&str>) -> (res: String)
    ensures
        res@ == default_output_text(text_view(stem)),
{
    let mut out: String = match stem {
        None => "unpacked".to_owned(),
        Some(s) => s.to_owned(),
    };
    out.append("_unpacked");
    out
}

/// What a batch run looks for.
#[derive(Debug, Clone, Copy, PartialEq, Eq, Structural)]
pub enum BatchKind {
    Packages,
    Patches,
}

/// What the directory for a batch run over a directory ends with.
pub open spec fn batch_suffix(kind: BatchKind) -> Seq<char> {
    match kind {
        BatchKind::Packages => "_packages_unpacked"@,
        BatchKind::Patches => "_patches_unpacked"@,
    }
}

/// The directory for a batch run over a directory with this name.
pub open spec fn default_batch_output_text(dir: Option<Seq<char>>, kind: BatchKind) -> Seq<char> {
    match dir {
        None => "unpacked"@ + batch_suffix(kind),
        Some(s) => s + batch_suffix(kind),
    }
}

impl BatchKind {
    /// The extension of the files that are looked for.
    pub fn extension(self) -> (res: &'static str)
        ensures
            res@ == match self {
                BatchKind::Packages => "package"@,
                BatchKind::Patches => "patch"@,
            },
    {
        match self {
            BatchKind::Packages => "package",
            BatchKind::Patches => "patch",
        }
    }
}

/// Where a batch run goes unless told otherwise, by the name of the directory
/// that it runs over.
pub fn default_batch_output(dir: Option<&str>, kind: BatchKind) -> (res: String)
    ensures
        res@ == default_batch_output_text(text_view(dir), kind),
{
    let mut out: String = match dir {
        None => "unpacked".to_owned(),
        Some(s) => s.to_owned(),
    };
    match kind {
        BatchKind::Packages => out.append("_packages_unpacked"),
        BatchKind::Patches => out.append("_patches_unpacked"),
    }
    out
}

/// The views of some texts.
pub open spec fn text_views(parts: Seq<String>) -> Seq<Seq<char>> {
    Seq::new(parts.len(), |i: int| parts[i]@)
}

/// Where a batch run writes a package: below `output`, as the package lies
/// below the directory that the run goes over. `parts` are the parts of that
/// relative path.
pub fn batch_package_path(output: &str, parts: &Vec<String>) -> (res: String)
    ensures
        res@ == joined(output@, text_views(parts@)),
{
    let mut out: String = output.to_owned();
    let ghost all = text_views(parts@);
    for i in 0..parts.len()
        invariant
            all == text_views(parts@),
            out@ == joined(output@, all.take(i as int)),
    {
        if !ends_open(out.as_str()) {
            out.push('/');
        }
        out.append(parts[i].as_str());
        proof {
            lemma_joined_push(output@, all.take(i as int), all[i as int]);
            assert(all.take(i + 1) =~= all.take(i as int).push(all[i as int]));
        }
    }
    proof {
        assert(all.take(all.len() as int) =~= all);
    }
    out
}

/// `p` can be a part of a path: it is not empty and holds no slash.
pub open spec fn is_part(p: Seq<char>) -> bool {
    p.len() > 0 && forall|i: int| 0 <= i < p.len() ==> #[trigger] p[i] != '/'
}

/// Each element of `parts` can be a part of a path.
pub open spec fn are_parts(parts: Seq<Seq<char>>) -> bool {
    forall|i: int| 0 <= i < parts.len() ==> is_part(#[trigger] parts[i])
}

/// What a path is made of before its last part: up to and with the slash.
spec fn opened(base: Seq<char>) -> Seq<char> {
    if base.len() == 0 || base.last() == '/' {
        base
    } else {
        base.push('/')
    }
}

/// A path with parts is longer than its base and does not end with a slash.
proof fn lemma_joined_closed(base: Seq<char>, parts: Seq<Seq<char>>)
    requires
        are_parts(parts),
        parts.len() > 0,
    ensures
        joined(base, parts).len() > base.len(),
        joined(base, parts).last() != '/',
    decreases parts.len(),
{
    let last = parts.last();
    assert(is_part(parts[parts.len() - 1]));
    assert(last[last.len() - 1] != '/');
    if parts.len() > 1 {
        assert(are_parts(parts.drop_last()));
        lemma_joined_closed(base, parts.drop_last());
    }
}

/// A text parts in just one way into an opened path and a part.
proof fn lemma_last_part(a: Seq<char>, p: Seq<char>, b: Seq<char>, q: Seq<char>)
    requires
        is_part(p),
        is_part(q),
        opened(a) + p == opened(b) + q,
    ensures
        p == q,
        opened(a) == opened(b),
{
    let x = opened(a);
    let y = opened(b);
    let whole = x + p;
    assert(whole == y + q);
    if x.len() < y.len() {
        let i = y.len() - 1;
        assert(y[i] == '/');
        assert(whole[i] == '/');
        assert(whole[i] == p[i - x.len()]);
    }
    if y.len() < x.len() {
        let i = x.len() - 1;
        assert(x[i] == '/');
        assert(whole[i] == '/');
        assert(whole[i] == q[i - y.len()]);
    }
    assert(x =~= whole.take(x.len() as int));
    assert(y =~= whole.take(x.len() as int));
    assert(p =~= whole.skip(x.len() as int));
    assert(q =~= whole.skip(x.len() as int));
}

/// Packages that lie at different places go to different directories, so that
/// packages of the same name do not overwrite each other.
pub proof fn law_batch_packages_do_not_collide(
    output: Seq<char>,
    a: Seq<Seq<char>>,
    b: Seq<Seq<char>>,
)
    requires
        are_parts(a),
        are_parts(b),
        joined(output, a) == joined(output, b),
    ensures
        a == b,
    decreases a.len(),
{
    if a.len() == 0 {
        if b.len() > 0 {
            lemma_joined_closed(output, b);
        }
        assert(a =~= b);
    } else if b.len() == 0 {
        lemma_joined_closed(output, a);
    } else {
        let c = a.drop_last();
        let d = b.drop_last();
        let x = joined(output, c);
        let y = joined(output, d);
        assert(is_part(a[a.len() - 1]));
        assert(is_part(b[b.len() - 1]));
        assert(are_parts(c));
        assert(are_parts(d));
        lemma_last_part(x, a.last(), y, b.last());
        if c.len() > 0 {
            lemma_joined_closed(output, c);
        }
        if d.len() > 0 {
            lemma_joined_closed(output, d);
        }
        if opened(x) != x && opened(y) != y {
            assert(x =~= opened(x).drop_last());
            assert(y =~= opened(y).drop_last());
        }
        assert(x == y);
        law_batch_packages_do_not_collide(output, c, d);
        assert(a =~= c.push(a.last()));
        assert(b =~= d.push(b.last()));
    }
}

/// `c`, or a backslash for a slash.
pub open spec fn with_backslash(c: char) -> char {
    if c == '/' {
        '\\'
    } else {
        c
    }
}

/// `s` with backslashes for slashes.
pub open spec fn with_backslashes(s: Seq<char>) -> Seq<char> {
    Seq::new(s.len(), |i: int| with_backslash(s[i]))
}

/// `s` with backslashes for slashes, as characters.
fn backslashed(s: &str) -> (res: Vec<char>)
    ensures
        res@ == with_backslashes(s@),
{
    let mut out: Vec<char> = Vec::new();
    for c in it: s.chars()
        invariant
            it.seq() == s@,
            out@ =~= with_backslashes(s@.take(it.index())),
    {
        out.push(
            if c == '/' {
                '\\'
            } else {
                c
            },
        );
    }
    proof {
        assert(s@.take(s@.len() as int) =~= s@);
    }
    out
}

/// The path `path` starts as `dir` does, slashes and backslashes being the
/// same.
pub open spec fn starts_as(path: Seq<char>, dir: Seq<char>) -> bool {
    with_backslashes(dir).is_prefix_of(with_backslashes(path))
}

/// Whether the path `path` starts as `dir` does.
pub fn path_starts_as(path: &str, dir: &str) -> (res: bool)
    ensures
        res == starts_as(path@, dir@),
{
    let p: Vec<char> = backslashed(path);
    let d: Vec<char> = backslashed(dir);
    if d.len() > p.len() {
        return false;
    }
    for i in 0..d.len()
        invariant
            p@ == with_backslashes(path@),
            d@ == with_backslashes(dir@),
            d@.len() <= p@.len(),
            forall|j: int| 0 <= j < i ==> d@[j] == p@[j],
    {
        if d[i] != p[i] {
            proof {
                assert(p@.subrange(0, d@.len() as int)[i as int] == p@[i as int]);
            }
            return false;
        }
    }
    proof {
        assert(p@.subrange(0, d@.len() as int) =~= d@);
    }
    true
}

/// The path `path` is the directory `dir` or lies in its tree, slashes and
/// backslashes being the same.
pub open spec fn lies_in(path: Seq<char>, dir: Seq<char>) -> bool {
    starts_as(path, dir) && (path.len() == dir.len() || dir.len() == 0 || is_separator(dir.last())
        || is_separator(path[dir.len() as int]))
}

/// Whether the path `path` is the directory `dir` or lies in its tree.
pub fn path_lies_in(path: &str, dir: &str) -> (res: bool)
    ensures
        res == lies_in(path@, dir@),
{
    if !path_starts_as(path, dir) {
        return false;
    }
    let p: Vec<char> = characters(path);
    let d: Vec<char> = characters(dir);
    let n: usize = d.len();
    proof {
        assert(with_backslashes(dir@).len() <= with_backslashes(path@).len());
    }
    if p.len() == n || n == 0 {
        return true;
    }
    d[n - 1] == '/' || d[n - 1] == '\\' || p[n] == '/' || p[n] == '\\'
}

/// What `str::to_lowercase` makes of a text.
pub uninterp spec fn lowercase(s: Seq<char>) -> Seq<char>;

/// Calls `str::to_lowercase`, which maps by the Unicode tables alone and by no
/// locale. Of ASCII text it maps the letters `A` to `Z` and keeps the rest.
#[verifier::external_body]
fn to_lowercase(s: &str) -> (res: String)
    ensures
        res@ == lowercase(s@),
        is_ascii_text(s@) ==> res@ == ascii_lowered(s@),
{
    s.to_lowercase()
}

/// What is said of an output directory inside the directory of the package.
pub open spec fn refusal_text(output: Seq<char>, dir: Seq<char>) -> Seq<char> {
    "输出目录 "@ + output + " 位于包文件所在目录 "@ + dir
        + " 内（游戏目录只读，请用 -o 指定其他位置）"@
}

/// Refuses an output directory in the tree of the directory of the package,
/// letter case aside, lest anything be written into the game. Both are
/// absolute paths; the error says so in words.
pub fn ensure_output_safe(output: &str, package_dir: &str) -> (res: Result<(), String>)
    ensures
        res is Ok <==> !lies_in(lowercase(output@), lowercase(package_dir@)),
        is_ascii_text(output@) && is_ascii_text(package_dir@) ==> (res is Ok <==> !lies_in(
            ascii_lowered(output@),
            ascii_lowered(package_dir@),
        )),
        res matches Err(text) ==> text@ == refusal_text(output@, package_dir@),
{
    let low_output: String = to_lowercase(output);
    let low_dir: String = to_lowercase(package_dir);
    if path_lies_in(low_output.as_str(), low_dir.as_str()) {
        let mut text: String = "输出目录 ".to_owned();
        text.append(output);
        text.append(" 位于包文件所在目录 ");
        text.append(package_dir);
        text.append(" 内（游戏目录只读，请用 -o 指定其他位置）");
        return Err(text);
    }
    Ok(())
}

/// A path below a directory lies in its tree.
proof fn lemma_joined_lies_in(dir: Seq<char>, parts: Seq<Seq<char>>)
    ensures
        lies_in(joined(dir, parts), dir),
    decreases parts.len(),
{
    let path = joined(dir, parts);
    lemma_joined_prefix(dir, parts);
    assert(with_backslashes(path).subrange(0, dir.len() as int) =~= with_backslashes(
        path.subrange(0, dir.len() as int),
    ));
    if parts.len() > 0 {
        let before = joined(dir, parts.drop_last());
        lemma_joined_lies_in(dir, parts.drop_last());
        lemma_joined_prefix(dir, parts.drop_last());
        if before.len() > dir.len() {
            assert(path[dir.len() as int] == before[dir.len() as int]);
        } else {
            assert(before =~= dir);
        }
    }
}

/// An output directory below the directory of the package is refused by
/// [`ensure_output_safe`]: lower-cased, it lies in the tree of that directory.
/// Of ASCII paths this holds as they are.
pub proof fn law_output_below_package_is_refused(
    output: Seq<char>,
    package_dir: Seq<char>,
    parts: Seq<Seq<char>>,
)
    ensures
        lowercase(output) == joined(lowercase(package_dir), parts) ==> lies_in(
            lowercase(output),
            lowercase(package_dir),
        ),
        lies_in(ascii_lowered(joined(package_dir, parts)), ascii_lowered(package_dir)),
{
    lemma_joined_lies_in(lowercase(package_dir), parts);
    lemma_joined_lies_in(package_dir, parts);
    lemma_lowered_lies_in(joined(package_dir, parts), package_dir);
}

/// Lower case changes nothing of what lies where.
proof fn lemma_lowered_lies_in(path: Seq<char>, dir: Seq<char>)
    requires
        lies_in(path, dir),
    ensures
        lies_in(ascii_lowered(path), ascii_lowered(dir)),
{
    let a = with_backslashes(path);
    let b = with_backslashes(dir);
    let c = with_backslashes(ascii_lowered(path));
    let d = with_backslashes(ascii_lowered(dir));
    assert forall|i: int| 0 <= i < dir.len() implies c[i] == d[i] by {
        assert(a.subrange(0, b.len() as int)[i] == b[i]);
        assert(c[i] == ascii_lower(a[i]));
        assert(d[i] == ascii_lower(b[i]));
    }
    assert(c.subrange(0, d.len() as int) =~= d);
}

/// A directory beside that of the package, whose name only starts with its
/// name, is no part of its tree and is accepted by [`ensure_output_safe`].
pub proof fn law_sibling_is_accepted(package_dir: Seq<char>, rest: Seq<char>)
    requires
        package_dir.len() > 0,
        !is_separator(package_dir.last()),
        rest.len() > 0,
        !is_separator(rest[0]),
    ensures
        !lies_in(package_dir + rest, package_dir),
        !lies_in(ascii_lowered(package_dir + rest), ascii_lowered(package_dir)),
{
    assert((package_dir + rest)[package_dir.len() as int] == rest[0]);
}

} // verus!
