//! The work-distribution scheduler and result collection, verified
//! over an in-memory model of a directory tree.
//!
//! A scan expands directories from a shared bounded queue (with a
//! private overflow stack for pushes the queue refuses), classifies
//! every entry through the filter configuration, and collects one
//! outcome per selected file and one per failed directory read. The
//! driver here executes that worker loop to completion and is proved
//! to produce exactly the outcomes that the recursive specification
//! below assigns to the tree; the host side that walks a live
//! filesystem reuses the same filters, queue and collector.

use vstd::prelude::*;
use vstd::multiset::Multiset;

use crate::filter::{FileFilter, Ignores};
use crate::glob::views;
use crate::queue::BoundedQueue;
use crate::text::{concat2, spec_join, spec_leaf_of};

verus! {

broadcast use vstd::seq_lib::group_to_multiset_ensures;

/// An in-memory directory tree: the model over which the scheduler is
/// specified and verified. A root's `name` is its full path; any other
/// node's `name` is its leaf name. An unreadable directory is one
/// whose entries cannot be listed.
pub struct FsDir {
    pub name: String,
    pub readable: bool,
    pub files: Vec<String>,
    pub subdirs: Vec<FsDir>,
}

/// One result of a scan: a selected file's full path, or a message
/// describing one failed operation.
pub enum Outcome {
    Match(String),
    Error(String),
}

/// The error message reported for a directory whose entries cannot be
/// read.
pub open spec fn unreadable_msg(path: Seq<char>) -> Seq<char> {
    "cannot read directory: "@ + path
}

/// Builds the error message for a directory whose entries cannot be
/// read.
pub fn unreadable_message(path: &str) -> (r: String)
    ensures
        r@ == unreadable_msg(path@),
{
    concat2("cannot read directory: ", path)
}

/// The matched paths among the file entries of one directory.
pub open spec fn file_outcomes(f: FileFilter, dir: Seq<char>, files: Seq<String>) -> Multiset<
    Seq<char>,
>
    decreases files.len(),
{
    if files.len() == 0 {
        Multiset::empty()
    } else {
        let rest = file_outcomes(f, dir, files.drop_last());
        let leaf = files.last()@;
        if f.spec_selects(leaf, spec_join(dir, leaf)) {
            rest.insert(spec_join(dir, leaf))
        } else {
            rest
        }
    }
}

/// The matched paths produced by scanning the directory at `path`,
/// which has itself already passed the directory filter: nothing when
/// it is unreadable, else its selected files plus, recursively, the
/// contribution of each subdirectory the directory filter keeps.
pub open spec fn dir_matched(ig: Ignores, path: Seq<char>, d: FsDir) -> Multiset<Seq<char>>
    decreases d,
{
    if !d.readable {
        Multiset::empty()
    } else {
        file_outcomes(ig.files, path, d.files@).add(subdirs_matched(ig, path, d.subdirs@))
    }
}

/// The matched paths contributed by a directory's subdirectory
/// entries: an excluded subdirectory contributes nothing at all.
pub open spec fn subdirs_matched(ig: Ignores, path: Seq<char>, subs: Seq<FsDir>) -> Multiset<
    Seq<char>,
>
    decreases subs,
{
    if subs.len() == 0 {
        Multiset::empty()
    } else {
        let rest = subdirs_matched(ig, path, subs.drop_last());
        let sub = subs.last();
        let full = spec_join(path, sub.name@);
        if ig.dirs.spec_excludes(sub.name@, full) {
            rest
        } else {
            rest.add(dir_matched(ig, full, sub))
        }
    }
}

/// The error messages produced by scanning the directory at `path`:
/// one message when it is unreadable, else the errors of its kept
/// subdirectories.
pub open spec fn dir_errors(ig: Ignores, path: Seq<char>, d: FsDir) -> Multiset<Seq<char>>
    decreases d,
{
    if !d.readable {
        Multiset::empty().insert(unreadable_msg(path))
    } else {
        subdirs_errors(ig, path, d.subdirs@)
    }
}

/// The error messages contributed by a directory's subdirectory
/// entries.
pub open spec fn subdirs_errors(ig: Ignores, path: Seq<char>, subs: Seq<FsDir>) -> Multiset<
    Seq<char>,
>
    decreases subs,
{
    if subs.len() == 0 {
        Multiset::empty()
    } else {
        let rest = subdirs_errors(ig, path, subs.drop_last());
        let sub = subs.last();
        let full = spec_join(path, sub.name@);
        if ig.dirs.spec_excludes(sub.name@, full) {
            rest
        } else {
            rest.add(dir_errors(ig, full, sub))
        }
    }
}

/// The matched paths of a whole scan: each root that passes the
/// directory filter contributes its subtree; an excluded root
/// contributes nothing.
pub open spec fn roots_matched(ig: Ignores, roots: Seq<FsDir>) -> Multiset<Seq<char>>
    decreases roots.len(),
{
    if roots.len() == 0 {
        Multiset::empty()
    } else {
        let rest = roots_matched(ig, roots.drop_last());
        let root = roots.last();
        if ig.dirs.spec_excludes(spec_leaf_of(root.name@), root.name@) {
            rest
        } else {
            rest.add(dir_matched(ig, root.name@, root))
        }
    }
}

/// The error messages of a whole scan.
pub open spec fn roots_errors(ig: Ignores, roots: Seq<FsDir>) -> Multiset<Seq<char>>
    decreases roots.len(),
{
    if roots.len() == 0 {
        Multiset::empty()
    } else {
        let rest = roots_errors(ig, roots.drop_last());
        let root = roots.last();
        if ig.dirs.spec_excludes(spec_leaf_of(root.name@), root.name@) {
            rest
        } else {
            rest.add(dir_errors(ig, root.name@, root))
        }
    }
}

/// The number of directory nodes in a tree; the scheduler's
/// termination measure.
pub open spec fn dir_size(d: FsDir) -> nat
    decreases d,
{
    1 + dirs_size(d.subdirs@)
}

/// The number of directory nodes in a forest.
pub open spec fn dirs_size(subs: Seq<FsDir>) -> nat
    decreases subs,
{
    if subs.len() == 0 {
        0
    } else {
        dirs_size(subs.drop_last()) + dir_size(subs.last())
    }
}

/// A pending path: a directory that passed the directory filter and
/// awaits expansion, together with the tree node standing for it.
pub struct Pending {
    pub path: String,
    pub dir: FsDir,
}

/// The matched paths still owed by a sequence of pending directories.
pub open spec fn pending_matched(ig: Ignores, s: Seq<Pending>) -> Multiset<Seq<char>>
    decreases s.len(),
{
    if s.len() == 0 {
        Multiset::empty()
    } else {
        pending_matched(ig, s.drop_last()).add(dir_matched(ig, s.last().path@, s.last().dir))
    }
}

/// The error messages still owed by a sequence of pending directories.
pub open spec fn pending_errors(ig: Ignores, s: Seq<Pending>) -> Multiset<Seq<char>>
    decreases s.len(),
{
    if s.len() == 0 {
        Multiset::empty()
    } else {
        pending_errors(ig, s.drop_last()).add(dir_errors(ig, s.last().path@, s.last().dir))
    }
}

/// The total tree size of a sequence of pending directories; the
/// scheduler's termination measure.
pub open spec fn pending_size(s: Seq<Pending>) -> nat
    decreases s.len(),
{
    if s.len() == 0 {
        0
    } else {
        pending_size(s.drop_last()) + dir_size(s.last().dir)
    }
}

/// Taking a pending directory from the front of a sequence takes away
/// exactly its own contribution.
proof fn lemma_pending_pop_front(ig: Ignores, s: Seq<Pending>)
    requires
        s.len() > 0,
    ensures
        pending_matched(ig, s) =~= pending_matched(ig, s.drop_first()).add(
            dir_matched(ig, s[0].path@, s[0].dir),
        ),
        pending_errors(ig, s) =~= pending_errors(ig, s.drop_first()).add(
            dir_errors(ig, s[0].path@, s[0].dir),
        ),
        pending_size(s) == pending_size(s.drop_first()) + dir_size(s[0].dir),
    decreases s.len(),
{
    if s.len() == 1 {
        assert(s.drop_last() =~= Seq::<Pending>::empty());
        assert(s.drop_first() =~= Seq::<Pending>::empty());
        assert(s.last() == s[0]);
    } else {
        lemma_pending_pop_front(ig, s.drop_last());
        assert(s.drop_last()[0] == s[0]);
        assert(s.drop_first().drop_last() =~= s.drop_last().drop_first());
        assert(s.drop_first().last() == s.last());
    }
}

/// The result collector: partitions outcomes into matched paths and
/// error messages, in arrival order.
pub struct Collector {
    pub matched: Vec<String>,
    pub errors: Vec<String>,
}

impl Collector {
    /// An empty collector.
    pub fn new() -> (c: Collector)
        ensures
            c.matched@ == Seq::<String>::empty(),
            c.errors@ == Seq::<String>::empty(),
    {
        let matched: Vec<String> = Vec::new();
        let errors: Vec<String> = Vec::new();
        proof {
            assert(matched@ =~= Seq::<String>::empty());
            assert(errors@ =~= Seq::<String>::empty());
        }
        Collector { matched, errors }
    }

    /// Records one outcome on the side it belongs to.
    pub fn update(&mut self, o: Outcome)
        ensures
            o matches Outcome::Match(p) ==> final(self).matched@ == old(self).matched@.push(p)
                && final(self).errors@ == old(self).errors@,
            o matches Outcome::Error(m) ==> final(self).errors@ == old(self).errors@.push(m)
                && final(self).matched@ == old(self).matched@,
    {
        match o {
            Outcome::Match(p) => self.matched.push(p),
            Outcome::Error(m) => self.errors.push(m),
        }
    }

    /// Hands the two collections out: all matched paths, all error
    /// messages.
    pub fn finalize(self) -> (r: (Vec<String>, Vec<String>))
        ensures
            r.0 == self.matched,
            r.1 == self.errors,
    {
        (self.matched, self.errors)
    }
}

/// Pushing a string onto a list pushes its view onto the list of
/// views.
proof fn lemma_views_push(s: Seq<String>, x: String)
    ensures
        views(s.push(x)) =~= views(s).push(x@),
{
}

/// A forest's size splits off the size of its first tree.
proof fn lemma_dirs_size_pop_front(subs: Seq<FsDir>)
    requires
        subs.len() > 0,
    ensures
        dirs_size(subs) == dir_size(subs[0]) + dirs_size(subs.drop_first()),
    decreases subs.len(),
{
    if subs.len() == 1 {
        assert(subs.drop_last() =~= Seq::<FsDir>::empty());
        assert(subs.drop_first() =~= Seq::<FsDir>::empty());
        assert(subs.last() == subs[0]);
    } else {
        lemma_dirs_size_pop_front(subs.drop_last());
        assert(subs.drop_last()[0] == subs[0]);
        assert(subs.drop_first().drop_last() =~= subs.drop_last().drop_first());
        assert(subs.drop_first().last() == subs.last());
    }
}

/// Scans the model tree: seeds the shared queue with the roots the
/// directory filter keeps, then runs the worker loop — pop a pending
/// path, preferring the private overflow stack; expand it; emit one
/// outcome per selected file and one per unreadable directory; push
/// every kept subdirectory, diverting to the overflow stack when the
/// shared queue refuses the push for being full — until no pending
/// path is left. The queue's capacity is the larger of the root count
/// and a small multiple of `worker_count`, so seeding never overflows.
/// The multisets of matched paths and of error messages depend only on
/// the tree and the filter configuration, never on `worker_count` or
/// on the order in which pending paths happen to be expanded.
pub fn scan_tree(roots: Vec<FsDir>, ig: &Ignores, worker_count: usize) -> (r: (
    Vec<String>,
    Vec<String>,
))
    ensures
        views(r.0@).to_multiset() == roots_matched(*ig, roots@),
        views(r.1@).to_multiset() == roots_errors(*ig, roots@),
{
    let ghost roots0 = roots@;
    // A few queue slots per worker suffice; the clamp keeps the
    // capacity arithmetic in range for any worker count.
    let clamped_workers = if worker_count > 256 {
        256
    } else {
        worker_count
    };
    let slack = 4 * clamped_workers;
    let cap = if roots.len() > slack {
        roots.len()
    } else {
        slack
    };
    let mut queue: BoundedQueue<Pending> = BoundedQueue::new(cap);
    let mut stack: Vec<Pending> = Vec::new();
    let mut collector = Collector::new();

    // Seed the shared queue with the non-excluded roots, in order.
    let mut remaining = roots;
    let ghost mut done: Seq<FsDir> = Seq::empty();
    while remaining.len() > 0
        invariant
            roots0 =~= done + remaining@,
            queue.spec_cap() == cap,
            cap >= roots0.len(),
            queue@.len() <= done.len(),
            pending_matched(*ig, queue@) =~= roots_matched(*ig, done),
            pending_errors(*ig, queue@) =~= roots_errors(*ig, done),
            collector.matched@.len() == 0,
            collector.errors@.len() == 0,
            stack@.len() == 0,
        decreases remaining@.len(),
    {
        let ghost rem0 = remaining@;
        let root = remaining.remove(0);
        let ghost root_g = root;
        let ghost done1 = done.push(root_g);
        proof {
            assert(rem0[0] == root_g);
            assert(done1.drop_last() =~= done);
            assert(roots0 =~= done1 + remaining@);
            assert(done1.last() == root_g);
        }
        let excluded = ig.dirs.excludes_root(root.name.as_str());
        if !excluded {
            let ghost q0 = queue@;
            let path = root.name.clone();
            let pending = Pending { path, dir: root };
            let ghost pending_g = pending;
            assert(queue@.len() < cap);
            match queue.push(pending) {
                Ok(()) => {},
                Err(_) => {
                    proof {
                        assert(false);
                    }
                },
            }
            proof {
                assert(queue@.drop_last() =~= q0);
                assert(queue@.last() == pending_g);
                assert(pending_g.path@ == root_g.name@ && pending_g.dir == root_g);
            }
        }
        proof {
            done = done1;
        }
    }
    proof {
        assert(done =~= roots0);
    }

    // The worker loop: expand pending paths until none is left.
    loop
        invariant
            queue.spec_cap() == cap,
            views(collector.matched@).to_multiset().add(
                pending_matched(*ig, stack@).add(pending_matched(*ig, queue@)),
            ) =~= roots_matched(*ig, roots0),
            views(collector.errors@).to_multiset().add(
                pending_errors(*ig, stack@).add(pending_errors(*ig, queue@)),
            ) =~= roots_errors(*ig, roots0),
        ensures
            views(collector.matched@).to_multiset() =~= roots_matched(*ig, roots0),
            views(collector.errors@).to_multiset() =~= roots_errors(*ig, roots0),
        decreases pending_size(stack@) + pending_size(queue@),
    {
        let ghost stack0 = stack@;
        let ghost queue0 = queue@;
        // Pop a pending path, preferring the private overflow stack.
        let popped: Pending;
        match stack.pop() {
            Some(p) => {
                popped = p;
                proof {
                    assert(stack@ =~= stack0.drop_last());
                }
            },
            None => {
                match queue.pop() {
                    Some(p) => {
                        popped = p;
                        proof {
                            assert(stack0.len() == 0);
                            lemma_pending_pop_front(*ig, queue0);
                        }
                    },
                    None => {
                        // Both the overflow stack and the shared queue
                        // are empty: the worker terminates.
                        proof {
                            assert(stack@.len() == 0 && queue@.len() == 0);
                            assert(pending_matched(*ig, stack@) =~= Multiset::empty());
                            assert(pending_matched(*ig, queue@) =~= Multiset::empty());
                            assert(pending_errors(*ig, stack@) =~= Multiset::empty());
                            assert(pending_errors(*ig, queue@) =~= Multiset::empty());
                            assert(views(collector.matched@).to_multiset() =~= roots_matched(
                                *ig,
                                roots0,
                            ));
                            assert(views(collector.errors@).to_multiset() =~= roots_errors(
                                *ig,
                                roots0,
                            ));
                        }
                        break ;
                    },
                }
            },
        }
        let ghost popped0 = popped;
        let ghost matched0 = views(collector.matched@).to_multiset();
        let ghost errors0 = views(collector.errors@).to_multiset();
        let ghost rest_matched = pending_matched(*ig, stack@).add(pending_matched(*ig, queue@));
        let ghost rest_errors = pending_errors(*ig, stack@).add(pending_errors(*ig, queue@));
        let ghost rest_size = pending_size(stack@) + pending_size(queue@);
        proof {
            assert(matched0.add(rest_matched.add(dir_matched(*ig, popped0.path@, popped0.dir)))
                =~= roots_matched(*ig, roots0));
            assert(errors0.add(rest_errors.add(dir_errors(*ig, popped0.path@, popped0.dir)))
                =~= roots_errors(*ig, roots0));
            assert(rest_size + dir_size(popped0.dir) == pending_size(stack0) + pending_size(
                queue0,
            ));
            assert(dir_size(popped0.dir) >= 1);
        }
        let Pending { path, dir } = popped;
        let FsDir { name: _, readable, files, subdirs } = dir;
        let ghost files0 = files@;
        let ghost subs0 = subdirs@;

        if !readable {
            // One failed directory read: one error outcome, and the
            // scan goes on with the next pending path.
            let msg = unreadable_message(path.as_str());
            let ghost msg_g = msg;
            let ghost eseq0 = collector.errors@;
            collector.update(Outcome::Error(msg));
            proof {
                assert(collector.errors@ == eseq0.push(msg_g));
                lemma_views_push(eseq0, msg_g);
                assert(views(collector.errors@).to_multiset() =~= errors0.insert(
                    unreadable_msg(popped0.path@),
                ));
                assert(dir_matched(*ig, popped0.path@, popped0.dir) =~= Multiset::empty());
                assert(dir_errors(*ig, popped0.path@, popped0.dir) =~= Multiset::empty().insert(
                    unreadable_msg(popped0.path@),
                ));
                assert(views(collector.matched@).to_multiset().add(
                    pending_matched(*ig, stack@).add(pending_matched(*ig, queue@)),
                ) =~= roots_matched(*ig, roots0));
                assert(views(collector.errors@).to_multiset().add(
                    pending_errors(*ig, stack@).add(pending_errors(*ig, queue@)),
                ) =~= roots_errors(*ig, roots0));
                assert(pending_size(stack@) + pending_size(queue@) < pending_size(stack0)
                    + pending_size(queue0));
            }
            continue ;
        }

        // Classify the file entries in read order.
        let mut i: usize = 0;
        while i < files.len()
            invariant
                0 <= i <= files@.len(),
                files@ == files0,
                views(collector.matched@).to_multiset() =~= matched0.add(
                    file_outcomes(ig.files, popped0.path@, files0.take(i as int)),
                ),
                views(collector.errors@).to_multiset() =~= errors0,
                path@ == popped0.path@,
            decreases files@.len() - i,
        {
            proof {
                assert(files0.take(i + 1 as int).drop_last() =~= files0.take(i as int));
                assert(files0.take(i + 1 as int).last() == files0[i as int]);
            }
            let (selected, full_opt) = ig.files.select_file(path.as_str(), files[i].as_str());
            if selected {
                match full_opt {
                    Some(full) => {
                        let ghost full_g = full;
                        let ghost mseq0 = collector.matched@;
                        collector.update(Outcome::Match(full));
                        proof {
                            assert(collector.matched@ == mseq0.push(full_g));
                            lemma_views_push(mseq0, full_g);
                            assert(full_g@ == spec_join(popped0.path@, files0[i as int]@));
                        }
                    },
                    None => {
                        proof {
                            assert(false);
                        }
                    },
                }
            }
            i += 1;
        }
        proof {
            assert(files0.take(files0.len() as int) =~= files0);
        }

        // Classify the subdirectory entries in read order: push every
        // kept one, falling back to the private overflow stack when
        // the shared queue refuses the push.
        let ghost matched1 = views(collector.matched@).to_multiset();
        let ghost pend0 = pending_matched(*ig, stack@).add(pending_matched(*ig, queue@));
        let ghost penderr0 = pending_errors(*ig, stack@).add(pending_errors(*ig, queue@));
        let ghost pendsize0 = pending_size(stack@) + pending_size(queue@);
        let mut subs = subdirs;
        let ghost mut sdone: Seq<FsDir> = Seq::empty();
        while subs.len() > 0
            invariant
                subs0 =~= sdone + subs@,
                queue.spec_cap() == cap,
                views(collector.matched@).to_multiset() =~= matched1,
                views(collector.errors@).to_multiset() =~= errors0,
                pending_matched(*ig, stack@).add(pending_matched(*ig, queue@)) =~= pend0.add(
                    subdirs_matched(*ig, popped0.path@, sdone),
                ),
                pending_errors(*ig, stack@).add(pending_errors(*ig, queue@)) =~= penderr0.add(
                    subdirs_errors(*ig, popped0.path@, sdone),
                ),
                pending_size(stack@) + pending_size(queue@) + dirs_size(subs@) <= pendsize0
                    + dirs_size(subs0),
                path@ == popped0.path@,
            decreases subs@.len(),
        {
            let ghost subs_before = subs@;
            let ghost lstack0 = stack@;
            let ghost lqueue0 = queue@;
            let ghost sdone0 = sdone;
            proof {
                lemma_dirs_size_pop_front(subs_before);
            }
            let sub = subs.remove(0);
            let ghost sub_g = sub;
            let ghost sdone1 = sdone.push(sub_g);
            proof {
                assert(subs_before[0] == sub_g);
                assert(sdone1.drop_last() =~= sdone);
                assert(subs0 =~= sdone1 + subs@);
                assert(sdone1.last() == sub_g);
            }
            let (excluded, full_opt) = ig.dirs.excludes_entry(path.as_str(), sub.name.as_str());
            if !excluded {
                let full = match full_opt {
                    Some(f) => f,
                    None => vstd::pervasive::unreached(),
                };
                let ghost sq0 = queue@;
                let ghost ss0 = stack@;
                let pending = Pending { path: full, dir: sub };
                let ghost pending_g = pending;
                proof {
                    assert(pending_g.path@ == spec_join(popped0.path@, sub_g.name@));
                    assert(pending_g.dir == sub_g);
                }
                match queue.push(pending) {
                    Ok(()) => {
                        proof {
                            assert(queue@.drop_last() =~= sq0);
                            assert(queue@.last() == pending_g);
                            assert(pending_matched(*ig, queue@) == pending_matched(*ig, sq0).add(
                                dir_matched(*ig, pending_g.path@, pending_g.dir),
                            ));
                            assert(pending_errors(*ig, queue@) == pending_errors(*ig, sq0).add(
                                dir_errors(*ig, pending_g.path@, pending_g.dir),
                            ));
                            assert(pending_size(queue@) == pending_size(sq0) + dir_size(
                                pending_g.dir,
                            ));
                        }
                    },
                    Err(back) => {
                        stack.push(back);
                        proof {
                            assert(back == pending_g);
                            assert(stack@.drop_last() =~= ss0);
                            assert(stack@.last() == pending_g);
                            assert(pending_matched(*ig, stack@) == pending_matched(*ig, ss0).add(
                                dir_matched(*ig, pending_g.path@, pending_g.dir),
                            ));
                            assert(pending_errors(*ig, stack@) == pending_errors(*ig, ss0).add(
                                dir_errors(*ig, pending_g.path@, pending_g.dir),
                            ));
                            assert(pending_size(stack@) == pending_size(ss0) + dir_size(
                                pending_g.dir,
                            ));
                        }
                    },
                }
            }
            proof {
                let full_s = spec_join(popped0.path@, sub_g.name@);
                assert(sdone1.drop_last() == sdone);
                assert(sdone1.last() == sub_g);
                if excluded {
                    assert(subdirs_matched(*ig, popped0.path@, sdone1) == subdirs_matched(
                        *ig,
                        popped0.path@,
                        sdone,
                    ));
                    assert(subdirs_errors(*ig, popped0.path@, sdone1) == subdirs_errors(
                        *ig,
                        popped0.path@,
                        sdone,
                    ));
                } else {
                    assert(subdirs_matched(*ig, popped0.path@, sdone1) == subdirs_matched(
                        *ig,
                        popped0.path@,
                        sdone,
                    ).add(dir_matched(*ig, full_s, sub_g)));
                    assert(subdirs_errors(*ig, popped0.path@, sdone1) == subdirs_errors(
                        *ig,
                        popped0.path@,
                        sdone,
                    ).add(dir_errors(*ig, full_s, sub_g)));
                }
                assert forall|e: Seq<char>|
                    pending_matched(*ig, stack@).add(pending_matched(*ig, queue@)).count(e)
                        == pend0.add(subdirs_matched(*ig, popped0.path@, sdone1)).count(e) by {
                    assert(pending_matched(*ig, lstack0).add(pending_matched(*ig, lqueue0)).count(
                        e,
                    ) == pend0.add(subdirs_matched(*ig, popped0.path@, sdone0)).count(e));
                    assert(pending_matched(*ig, lstack0).count(e) + pending_matched(
                        *ig,
                        lqueue0,
                    ).count(e) == pend0.count(e) + subdirs_matched(
                        *ig,
                        popped0.path@,
                        sdone0,
                    ).count(e));
                }
                assert forall|e: Seq<char>|
                    pending_errors(*ig, stack@).add(pending_errors(*ig, queue@)).count(e)
                        == penderr0.add(subdirs_errors(*ig, popped0.path@, sdone1)).count(e) by {
                    assert(pending_errors(*ig, lstack0).add(pending_errors(*ig, lqueue0)).count(e)
                        == penderr0.add(subdirs_errors(*ig, popped0.path@, sdone0)).count(e));
                    assert(pending_errors(*ig, lstack0).count(e) + pending_errors(
                        *ig,
                        lqueue0,
                    ).count(e) == penderr0.count(e) + subdirs_errors(
                        *ig,
                        popped0.path@,
                        sdone0,
                    ).count(e));
                }
                sdone = sdone1;
                assert(pending_matched(*ig, stack@).add(pending_matched(*ig, queue@))
                    =~= pend0.add(subdirs_matched(*ig, popped0.path@, sdone)));
                assert(pending_errors(*ig, stack@).add(pending_errors(*ig, queue@))
                    =~= penderr0.add(subdirs_errors(*ig, popped0.path@, sdone)));
            }
        }
        proof {
            assert(sdone =~= subs0);
            assert(popped0.dir.readable && popped0.dir.files@ == files0 && popped0.dir.subdirs@
                == subs0);
            assert(dir_matched(*ig, popped0.path@, popped0.dir) =~= file_outcomes(
                ig.files,
                popped0.path@,
                files0,
            ).add(subdirs_matched(*ig, popped0.path@, subs0)));
            assert(dir_errors(*ig, popped0.path@, popped0.dir) =~= subdirs_errors(
                *ig,
                popped0.path@,
                subs0,
            ));
            assert(pend0 =~= rest_matched);
            assert(penderr0 =~= rest_errors);
            assert(pendsize0 == rest_size);
            assert(views(collector.matched@).to_multiset().add(
                pending_matched(*ig, stack@).add(pending_matched(*ig, queue@)),
            ) =~= roots_matched(*ig, roots0));
            assert(views(collector.errors@).to_multiset().add(
                pending_errors(*ig, stack@).add(pending_errors(*ig, queue@)),
            ) =~= roots_errors(*ig, roots0));
            assert(dirs_size(subs0) < dir_size(popped0.dir));
            assert(pending_size(stack@) + pending_size(queue@) < pending_size(stack0)
                + pending_size(queue0));
        }
    }
    collector.finalize()
}

/// Every file of a readable subtree, with no filtering at all: the
/// set of regular files reachable from the directory at `path`.
pub open spec fn all_files(path: Seq<char>, d: FsDir) -> Multiset<Seq<char>>
    decreases d,
{
    if !d.readable {
        Multiset::empty()
    } else {
        all_file_entries(path, d.files@).add(all_files_subdirs(path, d.subdirs@))
    }
}

/// The full paths of a directory's own file entries.
pub open spec fn all_file_entries(dir: Seq<char>, files: Seq<String>) -> Multiset<Seq<char>>
    decreases files.len(),
{
    if files.len() == 0 {
        Multiset::empty()
    } else {
        all_file_entries(dir, files.drop_last()).insert(spec_join(dir, files.last()@))
    }
}

/// The reachable files of a forest of subdirectories.
pub open spec fn all_files_subdirs(path: Seq<char>, subs: Seq<FsDir>) -> Multiset<Seq<char>>
    decreases subs,
{
    if subs.len() == 0 {
        Multiset::empty()
    } else {
        all_files_subdirs(path, subs.drop_last()).add(
            all_files(spec_join(path, subs.last().name@), subs.last()),
        )
    }
}

/// A filter configuration whose inclusion side matches everything and
/// whose exclusion sets are all empty selects every file and excludes
/// no directory.
pub proof fn lemma_star_filter_selects_all(ig: Ignores)
    requires
        forall|t: Seq<char>| #[trigger] ig.files.spec_rel_allow().spec_matches(t),
        ig.files.spec_rel_ignore().spec_is_empty(),
        ig.files.spec_abs_ignore().spec_is_empty(),
        ig.dirs.spec_rel().spec_is_empty(),
        ig.dirs.spec_abs().spec_is_empty(),
    ensures
        forall|leaf: Seq<char>, full: Seq<char>| #[trigger] ig.files.spec_selects(leaf, full),
        forall|leaf: Seq<char>, full: Seq<char>| !(#[trigger] ig.dirs.spec_excludes(leaf, full)),
{
}

/// A scan whose file rules select everything and whose directory
/// rules exclude nothing matches exactly the reachable regular files:
/// the subtree of every readable directory is reported in full.
pub proof fn lemma_select_all_matches_all_files(ig: Ignores, path: Seq<char>, d: FsDir)
    requires
        forall|leaf: Seq<char>, full: Seq<char>| #[trigger] ig.files.spec_selects(leaf, full),
        forall|leaf: Seq<char>, full: Seq<char>| !(#[trigger] ig.dirs.spec_excludes(leaf, full)),
    ensures
        dir_matched(ig, path, d) == all_files(path, d),
    decreases d,
{
    if d.readable {
        lemma_select_all_file_entries(ig, path, d.files@);
        lemma_select_all_subdirs(ig, path, d.subdirs@);
    }
}

/// The file-entry part of `lemma_select_all_matches_all_files`.
pub proof fn lemma_select_all_file_entries(ig: Ignores, dir: Seq<char>, files: Seq<String>)
    requires
        forall|leaf: Seq<char>, full: Seq<char>| #[trigger] ig.files.spec_selects(leaf, full),
    ensures
        file_outcomes(ig.files, dir, files) == all_file_entries(dir, files),
    decreases files.len(),
{
    if files.len() > 0 {
        lemma_select_all_file_entries(ig, dir, files.drop_last());
    }
}

/// The subdirectory part of `lemma_select_all_matches_all_files`.
pub proof fn lemma_select_all_subdirs(ig: Ignores, path: Seq<char>, subs: Seq<FsDir>)
    requires
        forall|leaf: Seq<char>, full: Seq<char>| #[trigger] ig.files.spec_selects(leaf, full),
        forall|leaf: Seq<char>, full: Seq<char>| !(#[trigger] ig.dirs.spec_excludes(leaf, full)),
    ensures
        subdirs_matched(ig, path, subs) == all_files_subdirs(path, subs),
    decreases subs,
{
    if subs.len() > 0 {
        lemma_select_all_subdirs(ig, path, subs.drop_last());
        lemma_select_all_matches_all_files(ig, spec_join(path, subs.last().name@), subs.last());
    }
}

/// A file entry whose leaf name matches a file-exclusion pattern is
/// never matched, whatever the inclusion patterns say: dropping it
/// from its directory changes nothing in the outcome.
pub proof fn lemma_ignored_file_entry_contributes_nothing(
    f: FileFilter,
    dir: Seq<char>,
    files: Seq<String>,
    i: int,
)
    requires
        0 <= i < files.len(),
        f.spec_rel_ignore().spec_matches(files[i]@),
    ensures
        file_outcomes(f, dir, files) == file_outcomes(f, dir, files.remove(i)),
    decreases files.len(),
{
    if i == files.len() - 1 {
        assert(files.remove(i) =~= files.drop_last());
    } else {
        lemma_ignored_file_entry_contributes_nothing(f, dir, files.drop_last(), i);
        assert(files.remove(i).drop_last() =~= files.drop_last().remove(i));
        assert(files.remove(i).last() == files.last());
        assert(files.drop_last()[i] == files[i]);
    }
}

/// No descendant of an excluded directory appears among the matched
/// paths or the errors: dropping the whole subtree of an excluded
/// subdirectory changes nothing in the outcome.
pub proof fn lemma_excluded_dir_contributes_nothing(
    ig: Ignores,
    path: Seq<char>,
    subs: Seq<FsDir>,
    i: int,
)
    requires
        0 <= i < subs.len(),
        ig.dirs.spec_excludes(subs[i].name@, spec_join(path, subs[i].name@)),
    ensures
        subdirs_matched(ig, path, subs) == subdirs_matched(ig, path, subs.remove(i)),
        subdirs_errors(ig, path, subs) == subdirs_errors(ig, path, subs.remove(i)),
    decreases subs.len(),
{
    if i == subs.len() - 1 {
        assert(subs.remove(i) =~= subs.drop_last());
    } else {
        lemma_excluded_dir_contributes_nothing(ig, path, subs.drop_last(), i);
        assert(subs.remove(i).drop_last() =~= subs.drop_last().remove(i));
        assert(subs.remove(i).last() == subs.last());
        assert(subs.drop_last()[i] == subs[i]);
    }
}

/// A root that the directory filter excludes contributes nothing to
/// the output: dropping it from the root list changes nothing.
pub proof fn lemma_excluded_root_contributes_nothing(ig: Ignores, roots: Seq<FsDir>, i: int)
    requires
        0 <= i < roots.len(),
        ig.dirs.spec_excludes(spec_leaf_of(roots[i].name@), roots[i].name@),
    ensures
        roots_matched(ig, roots) == roots_matched(ig, roots.remove(i)),
        roots_errors(ig, roots) == roots_errors(ig, roots.remove(i)),
    decreases roots.len(),
{
    if i == roots.len() - 1 {
        assert(roots.remove(i) =~= roots.drop_last());
    } else {
        lemma_excluded_root_contributes_nothing(ig, roots.drop_last(), i);
        assert(roots.remove(i).drop_last() =~= roots.drop_last().remove(i));
        assert(roots.remove(i).last() == roots.last());
        assert(roots.drop_last()[i] == roots[i]);
    }
}

/// Error isolation: a kept but unreadable subdirectory yields at
/// least one error for its own path, contributes no matched path at
/// all, and the scan of the rest goes on (the outcome of the other
/// entries is untouched by construction).
pub proof fn lemma_unreadable_dir_reports_error(
    ig: Ignores,
    path: Seq<char>,
    subs: Seq<FsDir>,
    i: int,
)
    requires
        0 <= i < subs.len(),
        !subs[i].readable,
        !ig.dirs.spec_excludes(subs[i].name@, spec_join(path, subs[i].name@)),
    ensures
        subdirs_errors(ig, path, subs).count(unreadable_msg(spec_join(path, subs[i].name@))) >= 1,
        dir_matched(ig, spec_join(path, subs[i].name@), subs[i]) == Multiset::<Seq<char>>::empty(),
    decreases subs.len(),
{
    if i == subs.len() - 1 {
        let full = spec_join(path, subs[i].name@);
        assert(dir_errors(ig, full, subs[i]) == Multiset::empty().insert(unreadable_msg(full)));
        assert(dir_errors(ig, full, subs[i]).count(unreadable_msg(full)) >= 1);
    } else {
        lemma_unreadable_dir_reports_error(ig, path, subs.drop_last(), i);
        assert(subs.drop_last()[i] == subs[i]);
    }
}

/// Every directory of the tree, the node itself included, can be
/// read.
pub open spec fn all_readable(d: FsDir) -> bool
    decreases d,
{
    d.readable && subdirs_all_readable(d.subdirs@)
}

/// Every directory of a forest can be read.
pub open spec fn subdirs_all_readable(subs: Seq<FsDir>) -> bool
    decreases subs,
{
    subs.len() == 0 || (subdirs_all_readable(subs.drop_last()) && all_readable(subs.last()))
}

/// The reachable files of a whole scan, with no filtering at all.
pub open spec fn all_files_roots(roots: Seq<FsDir>) -> Multiset<Seq<char>>
    decreases roots.len(),
{
    if roots.len() == 0 {
        Multiset::empty()
    } else {
        all_files_roots(roots.drop_last()).add(
            all_files(roots.last().name@, roots.last()),
        )
    }
}

/// A scan of a fully readable tree reports no error at all.
pub proof fn lemma_readable_no_errors(ig: Ignores, path: Seq<char>, d: FsDir)
    requires
        all_readable(d),
    ensures
        dir_errors(ig, path, d) == Multiset::<Seq<char>>::empty(),
    decreases d,
{
    lemma_readable_subdirs_no_errors(ig, path, d.subdirs@);
}

/// The forest part of `lemma_readable_no_errors`.
pub proof fn lemma_readable_subdirs_no_errors(ig: Ignores, path: Seq<char>, subs: Seq<FsDir>)
    requires
        subdirs_all_readable(subs),
    ensures
        subdirs_errors(ig, path, subs) == Multiset::<Seq<char>>::empty(),
    decreases subs,
{
    if subs.len() > 0 {
        lemma_readable_subdirs_no_errors(ig, path, subs.drop_last());
        lemma_readable_no_errors(ig, spec_join(path, subs.last().name@), subs.last());
        assert(subdirs_errors(ig, path, subs) =~= Multiset::<Seq<char>>::empty());
    }
}

/// The whole-scan form of the match-everything law: when the file
/// rules select everything and the directory rules exclude nothing,
/// the matched paths are exactly the reachable regular files of all
/// roots, and a fully readable tree yields no error at all.
pub proof fn lemma_select_all_roots(ig: Ignores, roots: Seq<FsDir>)
    requires
        forall|leaf: Seq<char>, full: Seq<char>| #[trigger] ig.files.spec_selects(leaf, full),
        forall|leaf: Seq<char>, full: Seq<char>| !(#[trigger] ig.dirs.spec_excludes(leaf, full)),
    ensures
        roots_matched(ig, roots) == all_files_roots(roots),
        (forall|i: int| 0 <= i < roots.len() ==> all_readable(#[trigger] roots[i]))
            ==> roots_errors(ig, roots) == Multiset::<Seq<char>>::empty(),
    decreases roots.len(),
{
    if roots.len() > 0 {
        lemma_select_all_roots(ig, roots.drop_last());
        lemma_select_all_matches_all_files(ig, roots.last().name@, roots.last());
        assert(forall|i: int|
            0 <= i < roots.drop_last().len() ==> roots.drop_last()[i] == roots[i]);
        if forall|i: int| 0 <= i < roots.len() ==> all_readable(#[trigger] roots[i]) {
            lemma_readable_no_errors(ig, roots.last().name@, roots.last());
            assert(all_readable(roots[roots.len() - 1]));
            assert(roots_errors(ig, roots) =~= Multiset::<Seq<char>>::empty());
        }
    }
}

/// Error isolation, composed for a whole directory: a readable
/// directory with one unreadable subdirectory, scanned with
/// select-everything file rules and no directory exclusions, still
/// matches exactly the reachable files (the unreadable subtree
/// contributes none, so when no file lives under it the count is that
/// of the rest of the tree) and reports at least one error.
pub proof fn lemma_error_isolation_scan(ig: Ignores, path: Seq<char>, d: FsDir, i: int)
    requires
        forall|leaf: Seq<char>, full: Seq<char>| #[trigger] ig.files.spec_selects(leaf, full),
        forall|leaf: Seq<char>, full: Seq<char>| !(#[trigger] ig.dirs.spec_excludes(leaf, full)),
        d.readable,
        0 <= i < d.subdirs@.len(),
        !d.subdirs@[i].readable,
    ensures
        dir_matched(ig, path, d) == all_files(path, d),
        dir_errors(ig, path, d).len() >= 1,
{
    lemma_select_all_matches_all_files(ig, path, d);
    lemma_unreadable_dir_reports_error(ig, path, d.subdirs@, i);
    let msg = unreadable_msg(spec_join(path, d.subdirs@[i].name@));
    assert(subdirs_errors(ig, path, d.subdirs@).count(msg) <= subdirs_errors(
        ig,
        path,
        d.subdirs@,
    ).len());
}

/// Every matched path is the full path of a file that the file rules
/// selected: nothing reaches the output without passing the filters.
pub proof fn lemma_matched_are_selected(ig: Ignores, path: Seq<char>, d: FsDir, p: Seq<char>)
    requires
        dir_matched(ig, path, d).count(p) > 0,
    ensures
        exists|dirp: Seq<char>, leaf: Seq<char>|
            p == #[trigger] spec_join(dirp, leaf) && ig.files.spec_selects(leaf, p),
    decreases d,
{
    if d.readable {
        if file_outcomes(ig.files, path, d.files@).count(p) > 0 {
            lemma_file_outcomes_are_selected(ig.files, path, d.files@, p);
        } else {
            lemma_subdirs_matched_are_selected(ig, path, d.subdirs@, p);
        }
    }
}

/// The file-entry part of `lemma_matched_are_selected`.
pub proof fn lemma_file_outcomes_are_selected(
    f: FileFilter,
    dir: Seq<char>,
    files: Seq<String>,
    p: Seq<char>,
)
    requires
        file_outcomes(f, dir, files).count(p) > 0,
    ensures
        exists|dirp: Seq<char>, leaf: Seq<char>|
            p == #[trigger] spec_join(dirp, leaf) && f.spec_selects(leaf, p),
    decreases files.len(),
{
    if files.len() > 0 {
        let leaf = files.last()@;
        let full = spec_join(dir, leaf);
        if f.spec_selects(leaf, full) && p == full {
            assert(p == spec_join(dir, leaf) && f.spec_selects(leaf, p));
        } else {
            lemma_file_outcomes_are_selected(f, dir, files.drop_last(), p);
        }
    }
}

/// The subdirectory part of `lemma_matched_are_selected`.
pub proof fn lemma_subdirs_matched_are_selected(
    ig: Ignores,
    path: Seq<char>,
    subs: Seq<FsDir>,
    p: Seq<char>,
)
    requires
        subdirs_matched(ig, path, subs).count(p) > 0,
    ensures
        exists|dirp: Seq<char>, leaf: Seq<char>|
            p == #[trigger] spec_join(dirp, leaf) && ig.files.spec_selects(leaf, p),
    decreases subs,
{
    let sub = subs.last();
    let full = spec_join(path, sub.name@);
    if subdirs_matched(ig, path, subs.drop_last()).count(p) > 0 {
        lemma_subdirs_matched_are_selected(ig, path, subs.drop_last(), p);
    } else {
        lemma_matched_are_selected(ig, full, sub, p);
    }
}

/// Idempotence: scanning an unchanged tree twice with identical
/// arguments yields the same matched-path multiset and the same error
/// multiset, because both are functions of the tree and the filter
/// configuration alone.
pub proof fn lemma_scan_idempotent(
    ig: Ignores,
    roots: Seq<FsDir>,
    m1: Multiset<Seq<char>>,
    e1: Multiset<Seq<char>>,
    m2: Multiset<Seq<char>>,
    e2: Multiset<Seq<char>>,
)
    requires
        m1 == roots_matched(ig, roots),
        e1 == roots_errors(ig, roots),
        m2 == roots_matched(ig, roots),
        e2 == roots_errors(ig, roots),
    ensures
        m1 == m2,
        e1 == e2,
{
}

/// Worker-count invariance: whatever worker counts two scans of the
/// same tree are given, their matched-path and error multisets are
/// identical — `scan_tree`'s contract names the tree and the filter
/// configuration only.
pub proof fn lemma_worker_count_invariance(
    ig: Ignores,
    roots: Seq<FsDir>,
    worker_count1: usize,
    worker_count2: usize,
    m1: Multiset<Seq<char>>,
    e1: Multiset<Seq<char>>,
    m2: Multiset<Seq<char>>,
    e2: Multiset<Seq<char>>,
)
    requires
        m1 == roots_matched(ig, roots),
        e1 == roots_errors(ig, roots),
        m2 == roots_matched(ig, roots),
        e2 == roots_errors(ig, roots),
    ensures
        m1 == m2,
        e1 == e2,
{
}

} // verus!
