//! What the command line asks for, and the search for packages of a batch run.

use crate::output::{text_views, BatchKind};
use crate::text::{ascii_lower, characters, lower};
use vstd::multiset::Multiset;
use vstd::prelude::*;

verus! {

/// The arguments of the program. Paths are texts.
#[derive(Debug)]
pub struct Args {
    /// A `.package` or `.patch` file.
    pub package: Option<String>,
    /// Unpack every `.package` file below this directory.
    pub all_packages: Option<String>,
    /// Unpack every `.patch` file below this directory.
    pub all_patches: Option<String>,
    /// Where to write.
    pub output: Option<String>,
    /// The launcher or client program that holds the key.
    pub launcher: Option<String>,
    /// List the entries only.
    pub list: bool,
    /// Leave Lua dumps as they are.
    pub no_lua_decrypt: bool,
    /// Number of threads.
    pub jobs: Option<usize>,
}

/// Why the modes of the arguments do not go together.
#[derive(Debug, Clone, Copy, PartialEq, Eq, Structural)]
pub enum ModeError {
    /// Neither a package nor a directory is given.
    NothingGiven,
    /// Both a package and a directory are given.
    PackageAndBatch,
}

impl ModeError {
    /// The error in words.
    pub fn message(&self) -> (res: &'static str)
        ensures
            res@ == match *self {
                ModeError::NothingGiven =>
                    "必须指定 <PACKAGE>、--all-packages <目录> 或 --all-patches <目录> 之一（-h 查看帮助）"@,
                ModeError::PackageAndBatch =>
                    "<PACKAGE> 不能与 --all-packages/--all-patches 同时使用"@,
            },
    {
        match self {
            ModeError::NothingGiven =>
                "必须指定 <PACKAGE>、--all-packages <目录> 或 --all-patches <目录> 之一（-h 查看帮助）",
            ModeError::PackageAndBatch => "<PACKAGE> 不能与 --all-packages/--all-patches 同时使用",
        }
    }
}

/// The arguments ask for a batch run.
pub open spec fn has_batch(args: Args) -> bool {
    args.all_packages is Some || args.all_patches is Some
}

/// Checks that the arguments give either a package or one or two directories.
pub fn validate_modes(args: &Args) -> (res: Result<(), ModeError>)
    ensures
        res is Ok <==> (args.package is Some) != has_batch(*args),
        res == Err::<(), ModeError>(ModeError::NothingGiven) <==> args.package is None
            && !has_batch(*args),
        res == Err::<(), ModeError>(ModeError::PackageAndBatch) <==> args.package is Some
            && has_batch(*args),
        res is Ok <==> args.package is Some && args.all_packages is None && args.all_patches
            is None || args.package is None && (args.all_packages is Some || args.all_patches
            is Some),
{
    let batch: bool = args.all_packages.is_some() || args.all_patches.is_some();
    if args.package.is_none() && !batch {
        return Err(ModeError::NothingGiven);
    }
    if args.package.is_some() && batch {
        return Err(ModeError::PackageAndBatch);
    }
    Ok(())
}

/// One thing to do.
#[derive(Debug)]
pub enum Job {
    /// Unpack this file.
    Single(String),
    /// Unpack every file of this kind below this directory.
    Batch(BatchKind, String),
}

/// A [`Job`] as a mathematical value.
pub enum JobModel {
    Single(Seq<char>),
    Batch(BatchKind, Seq<char>),
}

impl View for Job {
    type V = JobModel;

    open spec fn view(&self) -> JobModel {
        match self {
            Job::Single(p) => JobModel::Single(p@),
            Job::Batch(k, d) => JobModel::Batch(*k, d@),
        }
    }
}

/// The views of some jobs.
pub open spec fn job_views(jobs: Seq<Job>) -> Seq<JobModel> {
    Seq::new(jobs.len(), |i: int| jobs[i]@)
}

/// The batch job that an argument asks for, if it is given.
pub open spec fn batch_job(kind: BatchKind, dir: Option<String>) -> Seq<JobModel> {
    match dir {
        None => seq![],
        Some(d) => seq![JobModel::Batch(kind, d@)],
    }
}

/// What arguments that go together ask for: the package, or first the packages
/// and then the patches.
pub open spec fn planned(args: Args) -> Seq<JobModel> {
    match args.package {
        Some(p) => seq![JobModel::Single(p@)],
        None => batch_job(BatchKind::Packages, args.all_packages) + batch_job(
            BatchKind::Patches,
            args.all_patches,
        ),
    }
}

/// A search for packages is planned if and only if a directory for it is given,
/// and so is a search for patches, each in its own directory and once, whatever
/// else is given. A package is planned if and only if one is given.
pub proof fn law_each_directory_gets_its_search(args: Args)
    requires
        (args.package is Some) != (args.all_packages is Some || args.all_patches is Some),
    ensures
        forall|d: Seq<char>| #[trigger]
            planned(args).contains(JobModel::Batch(BatchKind::Packages, d)) <==> args.all_packages
                is Some && args.all_packages->0@ == d,
        forall|d: Seq<char>| #[trigger]
            planned(args).contains(JobModel::Batch(BatchKind::Patches, d)) <==> args.all_patches
                is Some && args.all_patches->0@ == d,
        forall|p: Seq<char>| #[trigger]
            planned(args).contains(JobModel::Single(p)) <==> args.package is Some
                && args.package->0@ == p,
        forall|i: int, j: int|
            0 <= i < j < planned(args).len() ==> planned(args)[i] != planned(args)[j],
{
    let jobs = planned(args);
    match args.package {
        Some(p) => {
            assert(jobs[0] == JobModel::Single(p@));
        },
        None => {
            if args.all_packages is Some {
                assert(jobs[0] == JobModel::Batch(BatchKind::Packages, args.all_packages->0@));
            }
            if args.all_patches is Some {
                assert(jobs[jobs.len() - 1] == JobModel::Batch(
                    BatchKind::Patches,
                    args.all_patches->0@,
                ));
            }
        },
    }
}

/// What the arguments ask for, if they go together.
pub fn plan(args: &Args) -> (res: Result<Vec<Job>, ModeError>)
    ensures
        res is Ok <==> (args.package is Some) != has_batch(*args),
        match res {
            Ok(jobs) => job_views(jobs@) == planned(*args),
            Err(ModeError::NothingGiven) => args.package is None,
            Err(ModeError::PackageAndBatch) => args.package is Some,
        },
        args.package is None && args.all_packages is None && args.all_patches is None ==> res
            == Err::<Vec<Job>, ModeError>(ModeError::NothingGiven),
        args.package is Some && (args.all_packages is Some || args.all_patches is Some) ==> res
            == Err::<Vec<Job>, ModeError>(ModeError::PackageAndBatch),
        res matches Ok(jobs) ==> {
            &&& args.package is Some ==> {
                &&& jobs@.len() == 1
                &&& jobs@[0] is Single
                &&& jobs@[0]->Single_0@ == args.package->0@
            }
            &&& args.package is None && args.all_packages is Some ==> {
                &&& jobs@[0] is Batch
                &&& jobs@[0]->Batch_0 == BatchKind::Packages
                &&& jobs@[0]->Batch_1@ == args.all_packages->0@
            }
            &&& args.package is None && args.all_patches is Some ==> {
                &&& jobs@.last() is Batch
                &&& jobs@.last()->Batch_0 == BatchKind::Patches
                &&& jobs@.last()->Batch_1@ == args.all_patches->0@
            }
            &&& args.package is None ==> jobs@.len() == (if args.all_packages is Some {
                1int
            } else {
                0
            }) + (if args.all_patches is Some {
                1int
            } else {
                0
            })
        },
{
    match validate_modes(args) {
        Err(e) => return Err(e),
        Ok(_) => {},
    }
    let mut jobs: Vec<Job> = Vec::new();
    if let Some(p) = &args.package {
        jobs.push(Job::Single(p.clone()));
    }
    if let Some(d) = &args.all_packages {
        jobs.push(Job::Batch(BatchKind::Packages, d.clone()));
    }
    if let Some(d) = &args.all_patches {
        jobs.push(Job::Batch(BatchKind::Patches, d.clone()));
    }
    proof {
        assert(job_views(jobs@) =~= planned(*args));
    }
    Ok(jobs)
}

/// `a` and `b` are the same but for the case of ASCII letters.
pub open spec fn same_ignoring_case(a: Seq<char>, b: Seq<char>) -> bool {
    a.len() == b.len() && forall|i: int|
        0 <= i < a.len() ==> ascii_lower(#[trigger] a[i]) == ascii_lower(b[i])
}

/// Whether `a` and `b` are the same but for the case of ASCII letters.
pub fn eq_ignoring_case(a: &str, b: &str) -> (res: bool)
    ensures
        res == same_ignoring_case(a@, b@),
{
    let x: Vec<char> = characters(a);
    let y: Vec<char> = characters(b);
    if x.len() != y.len() {
        return false;
    }
    for i in 0..x.len()
        invariant
            x@ == a@,
            y@ == b@,
            x@.len() == y@.len(),
            forall|j: int| 0 <= j < i ==> ascii_lower(#[trigger] a@[j]) == ascii_lower(b@[j]),
    {
        if lower(x[i]) != lower(y[i]) {
            proof {
                assert(ascii_lower(a@[i as int]) != ascii_lower(b@[i as int]));
            }
            return false;
        }
    }
    true
}

/// Something in a directory, at a path `P`.
#[derive(Debug)]
pub enum Item<P> {
    /// A directory. A symbolic link is none, whatever it leads to.
    Directory(P),
    /// Anything else, with the extension of its name.
    File { path: P, extension: Option<String> },
}

/// The item is a file with the extension `ext`, in any case.
pub open spec fn is_wanted<P>(item: Item<P>, ext: Seq<char>) -> bool {
    item matches Item::File { extension: Some(e), .. } && same_ignoring_case(e@, ext)
}

/// The directories among the first `n` items.
pub open spec fn directories<P>(items: Seq<Item<P>>, n: nat) -> Seq<P>
    decreases n,
{
    if n == 0 {
        seq![]
    } else {
        let before = directories(items, (n - 1) as nat);
        match items[n - 1] {
            Item::Directory(p) => before.push(p),
            _ => before,
        }
    }
}

/// The files among the first `n` items that have the extension `ext`.
pub open spec fn wanted_files<P>(items: Seq<Item<P>>, n: nat, ext: Seq<char>) -> Seq<P>
    decreases n,
{
    if n == 0 {
        seq![]
    } else {
        let before = wanted_files(items, (n - 1) as nat, ext);
        match items[n - 1] {
            Item::File { path, .. } => if is_wanted(items[n - 1], ext) {
                before.push(path)
            } else {
                before
            },
            _ => before,
        }
    }
}

/// A search for the files with an extension below a directory. The caller lists
/// the directories that [`Scan::next_directory`] names and hands what they hold
/// to [`Scan::listed`].
#[derive(Debug)]
pub struct Scan<P> {
    ext: String,
    pending: Vec<P>,
    found: Vec<P>,
}

impl<P> Scan<P> {
    /// The extension that is looked for.
    pub closed spec fn ext(self) -> Seq<char> {
        self.ext@
    }

    /// The directories that are still to be listed.
    pub closed spec fn pending(self) -> Seq<P> {
        self.pending@
    }

    /// The files that were found so far.
    pub closed spec fn found(self) -> Seq<P> {
        self.found@
    }

    /// Starts a search below `root`.
    pub fn new(root: P, ext: &str) -> (res: Self)
        ensures
            res.ext() == ext@,
            res.pending() == seq![root],
            res.found() == Seq::<P>::empty(),
    {
        let mut pending: Vec<P> = Vec::new();
        pending.push(root);
        let res = Scan { ext: ext.to_owned(), pending, found: Vec::new() };
        proof {
            assert(res.pending() =~= seq![root]);
        }
        res
    }

    /// The directory to list next, or nothing where the search is over.
    pub fn next_directory(&mut self) -> (res: Option<P>)
        ensures
            final(self).ext() == old(self).ext(),
            final(self).found() == old(self).found(),
            match res {
                None => old(self).pending().len() == 0 && final(self).pending() == old(
                    self,
                ).pending(),
                Some(dir) => old(self).pending().len() > 0 && dir == old(self).pending().last()
                    && final(self).pending() == old(self).pending().drop_last(),
            },
    {
        self.pending.pop()
    }

    /// Takes what a directory holds.
    pub fn listed(&mut self, items: Vec<Item<P>>)
        ensures
            final(self).ext() == old(self).ext(),
            final(self).pending() == old(self).pending() + directories(items@, items@.len()),
            final(self).found() == old(self).found() + wanted_files(
                items@,
                items@.len(),
                old(self).ext(),
            ),
    {
        let ghost all = items@;
        let ghost before = *self;
        proof {
            assert(self.pending() =~= before.pending() + directories(all, 0));
            assert(self.found() =~= before.found() + wanted_files(all, 0, before.ext()));
        }
        for item in it: items.into_iter()
            invariant
                it.seq() == all,
                self.ext() == before.ext(),
                self.pending() =~= before.pending() + directories(all, it.index() as nat),
                self.found() =~= before.found() + wanted_files(
                    all,
                    it.index() as nat,
                    before.ext(),
                ),
        {
            proof {
                assert(item == all[it.index()]);
            }
            match item {
                Item::Directory(p) => self.pending.push(p),
                Item::File { path, extension } => {
                    if let Some(e) = extension {
                        if eq_ignoring_case(e.as_str(), self.ext.as_str()) {
                            self.found.push(path);
                        }
                    }
                },
            }
        }
    }
}

/// A file or directory with its place below the root of a search: the names on
/// the way to it, its own included.
pub type Placed<P> = (Vec<String>, P);

impl<P> Scan<Placed<P>> {
    /// The files that were found, sorted by their places, once the search is
    /// over.
    pub fn finish(self) -> (res: Vec<Placed<P>>)
        requires
            self.pending().len() == 0,
        ensures
            res@.to_multiset() == self.found().to_multiset(),
            sorted_by_place(res@),
            forall|i: int, j: int|
                #![trigger res@[i], res@[j]]
                0 <= i < j < res@.len() ==> path_le(
                    text_views(res@[i].0@),
                    text_views(res@[j].0@),
                ),
    {
        sort_by_path(self.found)
    }
}

/// `a` does not stand behind `b` in the order of the code points, in which the
/// bytes of UTF-8 order texts too.
pub open spec fn text_le(a: Seq<char>, b: Seq<char>) -> bool
    decreases a.len(),
{
    if a.len() == 0 {
        true
    } else if b.len() == 0 {
        false
    } else if a[0] != b[0] {
        a[0] < b[0]
    } else {
        text_le(a.skip(1), b.skip(1))
    }
}

/// The path `a` does not stand behind `b`, part by part: the first part in
/// which they differ decides, and a path stands before those below it.
pub open spec fn path_le(a: Seq<Seq<char>>, b: Seq<Seq<char>>) -> bool
    decreases a.len(),
{
    if a.len() == 0 {
        true
    } else if b.len() == 0 {
        false
    } else if a[0] != b[0] {
        text_le(a[0], b[0])
    } else {
        path_le(a.skip(1), b.skip(1))
    }
}

/// The path `a` stands before `b`.
pub open spec fn path_lt(a: Seq<Seq<char>>, b: Seq<Seq<char>>) -> bool {
    path_le(a, b) && a != b
}

/// The place of `x`.
pub open spec fn place_of<P>(x: Placed<P>) -> Seq<Seq<char>> {
    text_views(x.0@)
}

/// The places do not descend.
pub open spec fn sorted_by_place<P>(s: Seq<Placed<P>>) -> bool {
    forall|i: int, j: int|
        0 <= i < j < s.len() ==> path_le(#[trigger] place_of(s[i]), #[trigger] place_of(s[j]))
}

/// [`text_le`] is total, antisymmetric and transitive.
proof fn lemma_text_order(a: Seq<char>, b: Seq<char>, c: Seq<char>)
    ensures
        text_le(a, b) || text_le(b, a),
        text_le(a, b) && text_le(b, a) ==> a == b,
        text_le(a, b) && text_le(b, c) ==> text_le(a, c),
    decreases a.len(),
{
    if a.len() == 0 {
        if b.len() == 0 {
            assert(a =~= b);
        }
    } else if b.len() > 0 {
        if c.len() > 0 {
            lemma_text_order(a.skip(1), b.skip(1), c.skip(1));
        } else {
            lemma_text_order(a.skip(1), b.skip(1), c);
        }
        if a[0] == b[0] && a.skip(1) == b.skip(1) {
            assert(a =~= seq![a[0]] + a.skip(1));
            assert(b =~= seq![b[0]] + b.skip(1));
        }
    }
}

/// The order of paths is total, antisymmetric and transitive.
pub proof fn law_path_order_is_linear(
    a: Seq<Seq<char>>,
    b: Seq<Seq<char>>,
    c: Seq<Seq<char>>,
)
    ensures
        path_le(a, b) || path_le(b, a),
        path_le(a, b) && path_le(b, a) ==> a == b,
        path_le(a, b) && path_le(b, c) ==> path_le(a, c),
    decreases a.len(),
{
    if a.len() == 0 {
        if b.len() == 0 {
            assert(a =~= b);
        }
    } else if b.len() > 0 {
        if c.len() > 0 {
            law_path_order_is_linear(a.skip(1), b.skip(1), c.skip(1));
            lemma_text_order(a[0], b[0], c[0]);
            lemma_text_order(b[0], c[0], a[0]);
        } else {
            law_path_order_is_linear(a.skip(1), b.skip(1), c);
            lemma_text_order(a[0], b[0], a[0]);
        }
        if a[0] == b[0] && a.skip(1) == b.skip(1) {
            assert(a =~= seq![a[0]] + a.skip(1));
            assert(b =~= seq![b[0]] + b.skip(1));
        }
    }
}

/// How two texts are ordered.
enum Side {
    Before,
    Same,
    Behind,
}

/// Where the two texts differ, the first character in which they do decides.
proof fn lemma_text_step(a: Seq<char>, b: Seq<char>, i: nat)
    requires
        i <= a.len(),
        i <= b.len(),
        forall|k: int| 0 <= k < i ==> a[k] == b[k],
    ensures
        text_le(a, b) == text_le(a.skip(i as int), b.skip(i as int)),
    decreases i,
{
    if i == 0 {
        assert(a.skip(0) =~= a);
        assert(b.skip(0) =~= b);
    } else {
        lemma_text_step(a.skip(1), b.skip(1), (i - 1) as nat);
        assert(a.skip(1).skip(i - 1) =~= a.skip(i as int));
        assert(b.skip(1).skip(i - 1) =~= b.skip(i as int));
    }
}

/// How two texts are ordered.
fn text_side(a: &str, b: &str) -> (res: Side)
    ensures
        res is Same <==> a@ == b@,
        res is Before ==> text_le(a@, b@),
        res is Behind ==> !text_le(a@, b@),
{
    let x: Vec<char> = characters(a);
    let y: Vec<char> = characters(b);
    let mut i: usize = 0;
    while i < x.len() && i < y.len()
        invariant
            x@ == a@,
            y@ == b@,
            i <= x@.len(),
            i <= y@.len(),
            forall|k: int| 0 <= k < i ==> x@[k] == y@[k],
        decreases x@.len() - i,
    {
        if x[i] != y[i] {
            proof {
                lemma_text_step(a@, b@, i as nat);
            }
            return if x[i] < y[i] {
                Side::Before
            } else {
                Side::Behind
            };
        }
        i = i + 1;
    }
    proof {
        lemma_text_step(a@, b@, i as nat);
    }
    if x.len() == y.len() {
        proof {
            assert(a@ =~= b@);
        }
        Side::Same
    } else if x.len() < y.len() {
        Side::Before
    } else {
        Side::Behind
    }
}

/// Where the two paths differ, the first part in which they do decides.
proof fn lemma_path_step(a: Seq<Seq<char>>, b: Seq<Seq<char>>, i: nat)
    requires
        i <= a.len(),
        i <= b.len(),
        forall|k: int| 0 <= k < i ==> a[k] == b[k],
    ensures
        path_le(a, b) == path_le(a.skip(i as int), b.skip(i as int)),
    decreases i,
{
    if i == 0 {
        assert(a.skip(0) =~= a);
        assert(b.skip(0) =~= b);
    } else {
        lemma_path_step(a.skip(1), b.skip(1), (i - 1) as nat);
        assert(a.skip(1).skip(i - 1) =~= a.skip(i as int));
        assert(b.skip(1).skip(i - 1) =~= b.skip(i as int));
    }
}

/// Whether the path `a` does not stand behind `b`.
pub fn path_not_behind(a: &Vec<String>, b: &Vec<String>) -> (res: bool)
    ensures
        res == path_le(text_views(a@), text_views(b@)),
{
    let ghost x = text_views(a@);
    let ghost y = text_views(b@);
    let mut i: usize = 0;
    while i < a.len() && i < b.len()
        invariant
            x == text_views(a@),
            y == text_views(b@),
            i <= a@.len(),
            i <= b@.len(),
            forall|k: int| 0 <= k < i ==> x[k] == y[k],
        decreases a@.len() - i,
    {
        match text_side(a[i].as_str(), b[i].as_str()) {
            Side::Same => {},
            Side::Before => {
                proof {
                    lemma_path_step(x, y, i as nat);
                }
                return true;
            },
            Side::Behind => {
                proof {
                    lemma_path_step(x, y, i as nat);
                }
                return false;
            },
        }
        i = i + 1;
    }
    proof {
        lemma_path_step(x, y, i as nat);
    }
    i == a.len()
}

/// Sorts by the places, part by part, as paths are ordered.
pub fn sort_by_path<P>(found: Vec<Placed<P>>) -> (res: Vec<Placed<P>>)
    ensures
        res@.to_multiset() == found@.to_multiset(),
        sorted_by_place(res@),
        forall|i: int, j: int|
            #![trigger res@[i], res@[j]]
            0 <= i < j < res@.len() ==> path_le(text_views(res@[i].0@), text_views(res@[j].0@)),
{
    let ghost all = found@;
    let mut sorted: Vec<Placed<P>> = Vec::new();
    proof {
        assert(all.take(0) =~= sorted@);
    }
    for x in it: found.into_iter()
        invariant
            it.seq() == all,
            sorted@.to_multiset() == all.take(it.index()).to_multiset(),
            sorted_by_place(sorted@),
    {
        let ghost before = sorted@;
        let mut at: usize = sorted.len();
        while at > 0 && !path_not_behind(&sorted[at - 1].0, &x.0)
            invariant
                at <= sorted@.len(),
                sorted@ == before,
                forall|k: int|
                    at <= k < before.len() ==> !path_le(#[trigger] place_of(before[k]), place_of(x)),
            decreases at,
        {
            at = at - 1;
            proof {
                assert(place_of(before[at as int]) == text_views(before[at as int].0@));
            }
        }
        proof {
            lemma_inserted(before, at as int, x);
            let i = it.index();
            assert(all.take(i + 1) =~= all.take(i).push(x));
            vstd::seq_lib::to_multiset_insert(before, at as int, x);
            vstd::seq_lib::to_multiset_build(all.take(i), x);
        }
        sorted.insert(at, x);
    }
    proof {
        assert(all.take(all.len() as int) =~= all);
        assert forall|i: int, j: int|
            #![trigger sorted@[i], sorted@[j]]
            0 <= i < j < sorted@.len() implies path_le(
            text_views(sorted@[i].0@),
            text_views(sorted@[j].0@),
        ) by {
            assert(path_le(place_of(sorted@[i]), place_of(sorted@[j])));
        }
    }
    sorted
}

/// What is put behind all that do not stand behind it, and before all that do,
/// stands in order.
proof fn lemma_inserted<P>(s: Seq<Placed<P>>, at: int, x: Placed<P>)
    requires
        0 <= at <= s.len(),
        sorted_by_place(s),
        at > 0 ==> path_le(place_of(s[at - 1]), place_of(x)),
        forall|k: int| at <= k < s.len() ==> !path_le(#[trigger] place_of(s[k]), place_of(x)),
    ensures
        sorted_by_place(s.insert(at, x)),
{
    let t = s.insert(at, x);
    assert forall|i: int, j: int| 0 <= i < j < t.len() implies path_le(
        #[trigger] place_of(t[i]),
        #[trigger] place_of(t[j]),
    ) by {
        if j < at {
            assert(t[i] == s[i] && t[j] == s[j]);
        } else if j == at {
            assert(t[i] == s[i]);
            if i < at - 1 {
                assert(path_le(place_of(s[i]), place_of(s[at - 1])));
                law_path_order_is_linear(place_of(s[i]), place_of(s[at - 1]), place_of(x));
            }
        } else if i == at {
            assert(t[j] == s[j - 1]);
            assert(!path_le(place_of(s[j - 1]), place_of(x)));
            law_path_order_is_linear(place_of(x), place_of(s[j - 1]), place_of(x));
        } else {
            let a = if i < at {
                i
            } else {
                i - 1
            };
            assert(t[i] == s[a] && t[j] == s[j - 1]);
        }
    }
}

/// What there is below a directory.
pub enum Node<P> {
    /// A directory and what it holds.
    Directory { path: P, nodes: Seq<Node<P>> },
    /// Anything else, with the extension of its name.
    File { path: P, extension: Option<Seq<char>> },
}

/// `item` is what a listing says of `node`.
pub open spec fn describes<P>(item: Item<P>, node: Node<P>) -> bool {
    match (item, node) {
        (Item::Directory(p), Node::Directory { path, .. }) => p == path,
        (Item::File { path: p, extension: e }, Node::File { path, extension }) => p == path
            && match e {
            None => extension is None,
            Some(t) => extension == Some(t@),
        },
        _ => false,
    }
}

/// `items` is the listing of a directory that holds `nodes`.
pub open spec fn describe<P>(items: Seq<Item<P>>, nodes: Seq<Node<P>>) -> bool {
    items.len() == nodes.len() && forall|i: int|
        0 <= i < items.len() ==> describes(#[trigger] items[i], nodes[i])
}

/// The files with the extension `ext` among the first `n` nodes and below them.
pub open spec fn files_below<P>(nodes: Seq<Node<P>>, n: nat, ext: Seq<char>) -> Multiset<P>
    decreases nodes, n,
{
    if n == 0 || n > nodes.len() {
        Multiset::empty()
    } else {
        let before = files_below(nodes, (n - 1) as nat, ext);
        match nodes[n - 1] {
            Node::Directory { nodes: inner, .. } => before.add(
                files_below(inner, inner.len(), ext),
            ),
            Node::File { path, extension } => if extension is Some && same_ignoring_case(
                extension->0,
                ext,
            ) {
                before.insert(path)
            } else {
                before
            },
        }
    }
}

/// The directories among the first `n` nodes.
pub open spec fn inner_directories<P>(nodes: Seq<Node<P>>, n: nat) -> Seq<Node<P>>
    decreases n,
{
    if n == 0 {
        seq![]
    } else {
        let before = inner_directories(nodes, (n - 1) as nat);
        if nodes[n - 1] is Directory {
            before.push(nodes[n - 1])
        } else {
            before
        }
    }
}

/// The path of a node.
pub open spec fn path_of<P>(node: Node<P>) -> P {
    match node {
        Node::Directory { path, .. } => path,
        Node::File { path, .. } => path,
    }
}

/// The paths of some nodes.
pub open spec fn paths_of<P>(nodes: Seq<Node<P>>) -> Seq<P> {
    Seq::new(nodes.len(), |i: int| path_of(nodes[i]))
}

/// All of the nodes are directories.
pub open spec fn all_directories<P>(nodes: Seq<Node<P>>) -> bool {
    forall|i: int| 0 <= i < nodes.len() ==> #[trigger] nodes[i] is Directory
}

/// What was found, and what lies below the directories `left` that are still to
/// be listed, are together the files with the right extension below `root`.
pub open spec fn covers<P>(scan: Scan<P>, left: Seq<Node<P>>, root: Node<P>) -> bool {
    &&& all_directories(left)
    &&& scan.pending() == paths_of(left)
    &&& scan.found().to_multiset().add(files_below(left, left.len(), scan.ext())) == files_below(
        seq![root],
        1,
        scan.ext(),
    )
}

/// The first nodes of a longer sequence have the same files below them.
proof fn lemma_files_below_prefix<P>(
    a: Seq<Node<P>>,
    b: Seq<Node<P>>,
    n: nat,
    ext: Seq<char>,
)
    requires
        n <= a.len(),
        n <= b.len(),
        forall|i: int| 0 <= i < n ==> a[i] == b[i],
    ensures
        files_below(a, n, ext) == files_below(b, n, ext),
    decreases n,
{
    if n > 0 {
        lemma_files_below_prefix(a, b, (n - 1) as nat, ext);
    }
}

/// The files below two rows of nodes are those below either.
proof fn lemma_files_below_add<P>(a: Seq<Node<P>>, b: Seq<Node<P>>, n: nat, ext: Seq<char>)
    requires
        n <= b.len(),
    ensures
        files_below(a + b, a.len() + n, ext) =~= files_below(a, a.len(), ext).add(
            files_below(b, n, ext),
        ),
    decreases n,
{
    if n == 0 {
        lemma_files_below_prefix(a + b, a, a.len(), ext);
    } else {
        lemma_files_below_add(a, b, (n - 1) as nat, ext);
        assert((a + b)[a.len() + n - 1] == b[n - 1]);
    }
}

/// What lies in a directory are the files that its listing gives and what lies
/// below the directories that its listing gives.
proof fn lemma_listing<P>(items: Seq<Item<P>>, nodes: Seq<Node<P>>, n: nat, ext: Seq<char>)
    requires
        describe(items, nodes),
        n <= nodes.len(),
    ensures
        files_below(nodes, n, ext) =~= wanted_files(items, n, ext).to_multiset().add(
            files_below(inner_directories(nodes, n), inner_directories(nodes, n).len(), ext),
        ),
        paths_of(inner_directories(nodes, n)) =~= directories(items, n),
        all_directories(inner_directories(nodes, n)),
    decreases n,
{
    broadcast use vstd::seq_lib::group_to_multiset_ensures;

    if n > 0 {
        let k = (n - 1) as nat;
        lemma_listing(items, nodes, k, ext);
        assert(describes(items[n - 1], nodes[n - 1]));
        let before = inner_directories(nodes, k);
        match nodes[n - 1] {
            Node::Directory { .. } => {
                let all = before.push(nodes[n - 1]);
                lemma_files_below_prefix(all, before, before.len(), ext);
                assert(all[before.len() as int] == nodes[n - 1]);
            },
            Node::File { .. } => {},
        }
    }
}

/// A search starts with everything still to be found.
pub proof fn law_scan_starts<P>(scan: Scan<P>, root: Node<P>)
    requires
        root is Directory,
        scan.pending() == seq![path_of(root)],
        scan.found().len() == 0,
    ensures
        covers(scan, seq![root], root),
{
    broadcast use vstd::seq_lib::group_to_multiset_ensures;

    let left = seq![root];
    assert(scan.pending() =~= paths_of(left));
    assert(scan.found().to_multiset() =~= Multiset::empty());
    assert(Multiset::empty().add(files_below(left, 1, scan.ext())) =~= files_below(
        left,
        1,
        scan.ext(),
    ));
}

/// To list the directory that is named next, and to hand in what it holds,
/// loses no file, finds none twice and finds none that is not there.
pub proof fn law_scan_goes_on<P>(
    before: Scan<P>,
    left: Seq<Node<P>>,
    root: Node<P>,
    items: Seq<Item<P>>,
    after: Scan<P>,
)
    requires
        covers(before, left, root),
        left.len() > 0,
        describe(items, left.last()->nodes),
        after.ext() == before.ext(),
        after.pending() == before.pending().drop_last() + directories(items, items.len()),
        after.found() == before.found() + wanted_files(items, items.len(), before.ext()),
    ensures
        covers(
            after,
            left.drop_last() + inner_directories(left.last()->nodes, items.len()),
            root,
        ),
{
    let ext = before.ext();
    let rest = left.drop_last();
    let nodes = left.last()->nodes;
    let inner = inner_directories(nodes, nodes.len());
    let found = wanted_files(items, items.len(), ext);
    assert(left[left.len() - 1] is Directory);
    lemma_listing(items, nodes, nodes.len(), ext);
    lemma_files_below_add(rest, inner, inner.len(), ext);
    lemma_files_below_prefix(left, rest, rest.len(), ext);
    vstd::seq_lib::lemma_multiset_commutative(before.found(), found);
    let now = rest + inner;
    assert(all_directories(now)) by {
        assert forall|i: int| 0 <= i < now.len() implies #[trigger] now[i] is Directory by {
            if i < rest.len() {
                assert(now[i] == left[i]);
            } else {
                assert(now[i] == inner[i - rest.len()]);
            }
        }
    }
    assert(after.pending() =~= paths_of(now));
    assert(files_below(left, left.len(), ext) =~= files_below(rest, rest.len(), ext).add(
        files_below(nodes, nodes.len(), ext),
    ));
    assert(after.found().to_multiset().add(files_below(now, now.len(), ext))
        =~= before.found().to_multiset().add(files_below(left, left.len(), ext)));
}

/// A search that is over has found the files with the right extension below its
/// root, each once.
pub proof fn law_scan_finds_all<P>(scan: Scan<P>, left: Seq<Node<P>>, root: Node<P>)
    requires
        covers(scan, left, root),
        scan.pending().len() == 0,
    ensures
        scan.found().to_multiset() == files_below(seq![root], 1, scan.ext()),
{
    assert(left.len() == 0);
    assert(scan.found().to_multiset().add(Multiset::empty()) =~= scan.found().to_multiset());
}

/// Where no two files have the same place, a search lists each of them once,
/// by strictly ascending places, and lists nothing else. `res` is what
/// [`Scan::finish`] returns.
pub proof fn law_scan_lists_each_once<P>(
    scan: Scan<Placed<P>>,
    left: Seq<Node<Placed<P>>>,
    root: Node<Placed<P>>,
    res: Seq<Placed<P>>,
)
    requires
        covers(scan, left, root),
        scan.pending().len() == 0,
        res.to_multiset() == scan.found().to_multiset(),
        sorted_by_place(res),
        forall|x: Placed<P>| files_below(seq![root], 1, scan.ext()).count(x) <= 1,
        forall|x: Placed<P>, y: Placed<P>|
            #![trigger place_of(x), place_of(y)]
            files_below(seq![root], 1, scan.ext()).contains(x) && files_below(
                seq![root],
                1,
                scan.ext(),
            ).contains(y) && place_of(x) == place_of(y) ==> x == y,
    ensures
        forall|x: Placed<P>|
            res.contains(x) <==> files_below(seq![root], 1, scan.ext()).contains(x),
        forall|i: int, j: int|
            0 <= i < j < res.len() ==> path_lt(
                #[trigger] place_of(res[i]),
                #[trigger] place_of(res[j]),
            ),
{
    broadcast use vstd::seq_lib::group_to_multiset_ensures;

    law_scan_finds_all(scan, left, root);
    let files = files_below(seq![root], 1, scan.ext());
    assert(res.to_multiset() == files);
    res.lemma_multiset_has_no_duplicates_conv();
    assert forall|i: int, j: int| 0 <= i < j < res.len() implies path_lt(
        #[trigger] place_of(res[i]),
        #[trigger] place_of(res[j]),
    ) by {
        assert(res[i] != res[j]);
        assert(res.contains(res[i]) && res.contains(res[j]));
    }
}

/// Two texts are the same but for case if and only if they are equally long and
/// each character of one is that of the other or the other case of it, 32 code
/// points away, an ASCII letter.
pub proof fn law_case_of_letters_is_ignored(a: Seq<char>, b: Seq<char>)
    ensures
        same_ignoring_case(a, b) <==> a.len() == b.len() && forall|i: int|
            #![trigger a[i]]
            0 <= i < a.len() ==> {
                ||| a[i] == b[i]
                ||| 65 <= a[i] as int <= 90 && b[i] as int == a[i] as int + 32
                ||| 65 <= b[i] as int <= 90 && a[i] as int == b[i] as int + 32
            },
        same_ignoring_case(a, b) == same_ignoring_case(b, a),
        same_ignoring_case(a, a),
{
    if same_ignoring_case(a, b) {
        assert forall|i: int| #![trigger a[i]] 0 <= i < a.len() implies {
            ||| a[i] == b[i]
            ||| 65 <= a[i] as int <= 90 && b[i] as int == a[i] as int + 32
            ||| 65 <= b[i] as int <= 90 && a[i] as int == b[i] as int + 32
        } by {
            assert(ascii_lower(a[i]) == ascii_lower(b[i]));
        }
        assert forall|i: int| 0 <= i < b.len() implies ascii_lower(#[trigger] b[i]) == ascii_lower(
            a[i],
        ) by {
            assert(ascii_lower(a[i]) == ascii_lower(b[i]));
        }
    }
    if same_ignoring_case(b, a) {
        assert forall|i: int| 0 <= i < a.len() implies ascii_lower(#[trigger] a[i]) == ascii_lower(
            b[i],
        ) by {
            assert(ascii_lower(b[i]) == ascii_lower(a[i]));
        }
    }
}

/// One more item in a listing adds just what it is: a directory to those still
/// to be listed, a file whose extension fits to those found, and nothing else.
pub proof fn law_each_item_counts<P>(items: Seq<Item<P>>, item: Item<P>, ext: Seq<char>)
    ensures
        directories(items.push(item), items.len() + 1) == directories(items, items.len()) + (
        match item {
            Item::Directory(p) => seq![p],
            Item::File { .. } => seq![],
        }),
        wanted_files(items.push(item), items.len() + 1, ext) == wanted_files(
            items,
            items.len(),
            ext,
        ) + (match item {
            Item::Directory(_) => seq![],
            Item::File { path, extension: None } => seq![],
            Item::File { path, extension: Some(e) } => if same_ignoring_case(e@, ext) {
                seq![path]
            } else {
                seq![]
            },
        }),
        directories(Seq::<Item<P>>::empty(), 0) == Seq::<P>::empty(),
        wanted_files(Seq::<Item<P>>::empty(), 0, ext) == Seq::<P>::empty(),
{
    lemma_items_prefix(items, item, items.len(), ext);
    let all = items.push(item);
    let n = all.len();
    assert(all[n - 1] == item);
    assert(directories(all, n) =~= directories(items, items.len()) + (match item {
        Item::Directory(p) => seq![p],
        Item::File { .. } => seq![],
    }));
    assert(wanted_files(all, n, ext) =~= wanted_files(items, items.len(), ext) + (match item {
        Item::Directory(_) => seq![],
        Item::File { path, extension: None } => seq![],
        Item::File { path, extension: Some(e) } => if same_ignoring_case(e@, ext) {
            seq![path]
        } else {
            seq![]
        },
    }));
}

/// What is taken of the first items does not depend on what follows.
proof fn lemma_items_prefix<P>(items: Seq<Item<P>>, item: Item<P>, n: nat, ext: Seq<char>)
    requires
        n <= items.len(),
    ensures
        directories(items.push(item), n) == directories(items, n),
        wanted_files(items.push(item), n, ext) == wanted_files(items, n, ext),
    decreases n,
{
    if n > 0 {
        lemma_items_prefix(items, item, (n - 1) as nat, ext);
        assert(items.push(item)[n - 1] == items[n - 1]);
    }
}

/// What lies below some nodes: one node more adds just what it is, a file whose
/// extension fits, or everything that lies below it.
pub proof fn law_each_node_counts<P>(nodes: Seq<Node<P>>, node: Node<P>, ext: Seq<char>)
    ensures
        files_below(nodes.push(node), nodes.len() + 1, ext) == files_below(
            nodes,
            nodes.len(),
            ext,
        ).add(
            match node {
                Node::Directory { nodes: inner, .. } => files_below(inner, inner.len(), ext),
                Node::File { path, extension: None } => Multiset::empty(),
                Node::File { path, extension: Some(e) } => if same_ignoring_case(e, ext) {
                    Multiset::singleton(path)
                } else {
                    Multiset::empty()
                },
            },
        ),
        files_below(Seq::<Node<P>>::empty(), 0, ext) == Multiset::<P>::empty(),
{
    let all = nodes.push(node);
    lemma_files_below_prefix(all, nodes, nodes.len(), ext);
    assert(all[nodes.len() as int] == node);
    assert(files_below(all, all.len(), ext) =~= files_below(nodes, nodes.len(), ext).add(
        match node {
            Node::Directory { nodes: inner, .. } => files_below(inner, inner.len(), ext),
            Node::File { path, extension: None } => Multiset::empty(),
            Node::File { path, extension: Some(e) } => if same_ignoring_case(e, ext) {
                Multiset::singleton(path)
            } else {
                Multiset::empty()
            },
        },
    ));
}

/// The first part in which two paths differ decides between them, and in it the
/// first character, by its code point; what other paths continue stands first.
pub proof fn law_first_difference_decides(
    a: Seq<Seq<char>>,
    b: Seq<Seq<char>>,
    k: int,
    i: int,
)
    requires
        0 <= k <= a.len(),
        k <= b.len(),
        a.take(k) == b.take(k),
    ensures
        k == a.len() ==> path_le(a, b),
        k == b.len() < a.len() ==> !path_le(a, b),
        k < a.len() && k < b.len() && 0 <= i < a[k].len() && i < b[k].len() && a[k].take(i)
            == b[k].take(i) && a[k][i] != b[k][i] ==> path_le(a, b) == ((a[k][i] as int) < b[k][i]
            as int),
        k < a.len() && k < b.len() && i == a[k].len() < b[k].len() && a[k].take(i) == b[k].take(i)
            ==> path_le(a, b) && !path_le(b, a),
{
    assert forall|j: int| 0 <= j < k implies a[j] == b[j] by {
        assert(a.take(k)[j] == b.take(k)[j]);
    }
    lemma_path_step(a, b, k as nat);
    lemma_path_step(b, a, k as nat);
    if k < a.len() && k < b.len() && 0 <= i <= a[k].len() && i < b[k].len() && a[k].take(i)
        == b[k].take(i) {
        let x = a[k];
        let y = b[k];
        assert forall|j: int| 0 <= j < i implies x[j] == y[j] by {
            assert(x.take(i)[j] == y.take(i)[j]);
        }
        lemma_text_step(x, y, i as nat);
        lemma_text_step(y, x, i as nat);
        assert(a.skip(k)[0] == x);
        assert(b.skip(k)[0] == y);
        if i < x.len() {
            assert(x.skip(i)[0] == x[i]);
            assert(y.skip(i)[0] == y[i]);
        }
    }
}

} // verus!
