//! The walk over a directory tree that adds a directory and all it holds:
//! which path to read next, what it is archived as, and under which name.
//! Reading the disk is left to the caller, who hands back what it found.
use vstd::prelude::*;
use crate::path::{join, join_path, append_bytes, lemma_join_assoc, lemma_join_empty};

verus! {

/// An entry of a directory as listed on disk: its file name, whether it is a
/// directory, whether it is a symlink, and whether following it leads to a
/// directory.
pub struct DirEntryInfo {
    pub name: Vec<u8>,
    pub is_dir: bool,
    pub is_symlink: bool,
    pub points_to_dir: bool,
}

/// A path waiting to be visited: `src` on disk, `rel` its path below the source
/// root, and what it is.
pub struct WalkItem {
    pub src: Vec<u8>,
    pub rel: Vec<u8>,
    pub is_dir: bool,
    pub is_symlink: bool,
    pub points_to_dir: bool,
}

/// What to do with the next path of a walk.
pub enum WalkStep {
    /// Descend into the directory `src`: list it and hand its entries to
    /// `push_entries`; where `with_entry`, append it as a directory `dest`.
    Dir { src: Vec<u8>, dest: Vec<u8>, with_entry: bool },
    /// Append the symlink `src` as a link named `dest`.
    Link { src: Vec<u8>, dest: Vec<u8> },
    /// Append the file `src`, following symlinks, under the name `dest`.
    File { src: Vec<u8>, dest: Vec<u8> },
}

/// A step as plain values: its kind (0 directory, 1 link, 2 file), source,
/// destination and whether a directory gets an entry.
pub open spec fn step_view(s: WalkStep) -> (u8, Seq<u8>, Seq<u8>, bool) {
    match s {
        WalkStep::Dir { src, dest, with_entry } => (0u8, src@, dest@, with_entry),
        WalkStep::Link { src, dest } => (1u8, src@, dest@, false),
        WalkStep::File { src, dest } => (2u8, src@, dest@, false),
    }
}

/// Whether an item is descended into: a directory, or a symlink to one where
/// symlinks are followed.
pub open spec fn descends(it: WalkItem, follow: bool) -> bool {
    it.is_dir || (it.is_symlink && follow && it.points_to_dir)
}

/// The step for the item `it` of a walk that archives under `path`: its name
/// in the archive is `path` joined with its path below the source root.
pub open spec fn step_for(path: Seq<u8>, follow: bool, it: WalkItem) -> (u8, Seq<u8>, Seq<u8>, bool) {
    let dest = join(path, it.rel@);
    if descends(it, follow) {
        (0u8, it.src@, dest, dest.len() > 0)
    } else if !follow && it.is_symlink {
        (1u8, it.src@, dest, false)
    } else {
        (2u8, it.src@, dest, false)
    }
}

/// Which paths a walk descends into: every directory; a symlink that leads
/// to a directory only where symlinks are followed; never a path that is not
/// a directory and does not lead to one. What is not descended into is
/// archived as a link where symlinks are not followed and it is a symlink,
/// else as a file.
pub proof fn law_walk_descends_into_directories(path: Seq<u8>, follow: bool, it: WalkItem)
    ensures
        it.is_dir ==> step_for(path, follow, it).0 == 0u8,
        !it.is_dir && !it.points_to_dir ==> step_for(path, follow, it).0 != 0u8,
        follow && !it.is_dir && !it.points_to_dir ==> step_for(path, follow, it).0 == 2u8,
        !follow && !it.is_dir && it.is_symlink ==> step_for(path, follow, it).0 == 1u8,
        !it.is_dir && !it.is_symlink ==> step_for(path, follow, it).0 == 2u8,
        follow && it.is_symlink && it.points_to_dir ==> step_for(path, follow, it).0 == 0u8,
{
}

/// Every step of a walk, links and files included and whether or not
/// symlinks are followed, reads the path on disk that the item stands for and
/// names its entry the root name joined with the path below the source root;
/// a directory gets an entry exactly where that name is not empty.
pub proof fn law_walk_names_under_root(path: Seq<u8>, follow: bool, it: WalkItem)
    ensures
        step_for(path, follow, it).1 == it.src@,
        step_for(path, follow, it).2 == join(path, it.rel@),
        step_for(path, follow, it).0 == 0u8 ==> step_for(path, follow, it).3 == (join(
            path,
            it.rel@,
        ).len() > 0),
        step_for(path, follow, it).0 != 0u8 ==> !step_for(path, follow, it).3,
{
}

/// Whether `c` is the item for the entry `e` of the directory `parent`: its
/// source and relative path are those of `parent` joined with the entry's name.
pub open spec fn is_child_item(c: WalkItem, parent: WalkItem, e: DirEntryInfo) -> bool {
    &&& c.src@ == join(parent.src@, e.name@)
    &&& c.rel@ == join(parent.rel@, e.name@)
    &&& c.is_dir == e.is_dir
    &&& c.is_symlink == e.is_symlink
    &&& c.points_to_dir == e.points_to_dir
}

/// Whether `it` lies below the source root `src_path`: it is the root itself,
/// with an empty path below the root, or its source is the root joined with
/// its path below the root.
pub open spec fn rooted(it: WalkItem, src_path: Seq<u8>) -> bool {
    ||| it.src@ == join(src_path, it.rel@)
    ||| (it.src@ == src_path && it.rel@.len() == 0)
}

/// The item for an entry of a directory below the source root lies below the
/// root too: its source is the root joined with the path below the root that
/// names it in the archive.
pub proof fn law_child_rooted(c: WalkItem, parent: WalkItem, e: DirEntryInfo, src_path: Seq<u8>)
    requires
        rooted(parent, src_path),
        is_child_item(c, parent, e),
    ensures
        rooted(c, src_path),
{
    if parent.src@ == join(src_path, parent.rel@) {
        lemma_join_assoc(src_path, parent.rel@, e.name@);
    } else {
        lemma_join_empty(e.name@);
        assert(parent.rel@ =~= Seq::<u8>::empty());
    }
}

/// A copy of the bytes of `v`.
pub fn copy_vec(v: &Vec<u8>) -> (r: Vec<u8>)
    ensures
        r@ == v@,
{
    let mut r: Vec<u8> = Vec::new();
    append_bytes(&mut r, v.as_slice());
    assert(r@ =~= v@);
    r
}

/// The item for the entry `e` of the directory `parent`.
pub fn make_child(parent: &WalkItem, e: &DirEntryInfo) -> (c: WalkItem)
    ensures
        is_child_item(c, *parent, *e),
{
    WalkItem {
        src: join_path(parent.src.as_slice(), e.name.as_slice()),
        rel: join_path(parent.rel.as_slice(), e.name.as_slice()),
        is_dir: e.is_dir,
        is_symlink: e.is_symlink,
        points_to_dir: e.points_to_dir,
    }
}

/// Pushes the items for the entries of `parent` onto `stack`, in the order
/// listed, so that the last listed is visited first.
pub fn push_children(stack: &mut Vec<WalkItem>, parent: &WalkItem, entries: &Vec<DirEntryInfo>)
    ensures
        final(stack)@.len() == old(stack)@.len() + entries@.len(),
        forall|i: int| 0 <= i < old(stack)@.len() ==> #[trigger] final(stack)@[i] == old(stack)@[i],
        forall|i: int|
            0 <= i < entries@.len() ==> is_child_item(
                #[trigger] final(stack)@[old(stack)@.len() + i],
                *parent,
                entries@[i],
            ),
{
    let mut i: usize = 0;
    while i < entries.len()
        invariant
            i <= entries@.len(),
            stack@.len() == old(stack)@.len() + i,
            forall|k: int| 0 <= k < old(stack)@.len() ==> #[trigger] stack@[k] == old(stack)@[k],
            forall|k: int|
                0 <= k < i ==> is_child_item(
                    #[trigger] stack@[old(stack)@.len() + k],
                    *parent,
                    entries@[k],
                ),
        decreases entries@.len() - i,
    {
        let c = make_child(parent, &entries[i]);
        stack.push(c);
        i = i + 1;
    }
}

/// A walk that adds the directory `src_path` and all it holds, named `path`
/// and below in the archive.
pub struct DirWalk {
    path: Vec<u8>,
    src_path: Ghost<Seq<u8>>,
    follow: bool,
    stack: Vec<WalkItem>,
    listing: Option<WalkItem>,
}

impl DirWalk {
    /// The name the source root gets in the archive.
    pub closed spec fn root_name(&self) -> Seq<u8> {
        self.path@
    }

    /// Whether symlinks are followed.
    pub closed spec fn follows(&self) -> bool {
        self.follow
    }

    /// The directory on disk the walk started from.
    pub closed spec fn source_root(&self) -> Seq<u8> {
        self.src_path@
    }

    /// The paths still to visit; the last is visited next.
    pub closed spec fn pending(&self) -> Seq<WalkItem> {
        self.stack@
    }

    /// Every path the walk holds lies below its source root.
    pub open spec fn wf(&self) -> bool {
        &&& forall|i: int|
            0 <= i < self.pending().len() ==> rooted(#[trigger] self.pending()[i], self.source_root())
        &&& self.awaiting() matches Some(it) ==> rooted(it, self.source_root())
    }

    /// The directory whose entries the walk waits for, if any.
    pub closed spec fn awaiting(&self) -> Option<WalkItem> {
        self.listing
    }

    /// A walk of `src_path`, named `path` in the archive.
    pub fn new(path: &[u8], src_path: &[u8], follow: bool) -> (w: DirWalk)
        ensures
            w.root_name() == path@,
            w.source_root() == src_path@,
            w.wf(),
            w.follows() == follow,
            w.pending().len() == 1,
            w.pending()[0].src@ == src_path@,
            w.pending()[0].rel@ == Seq::<u8>::empty(),
            w.pending()[0].is_dir,
            !w.pending()[0].is_symlink,
            w.awaiting() is None,
    {
        let mut p: Vec<u8> = Vec::new();
        append_bytes(&mut p, path);
        let mut s: Vec<u8> = Vec::new();
        append_bytes(&mut s, src_path);
        assert(p@ =~= path@);
        assert(s@ =~= src_path@);
        let root = WalkItem {
            src: s,
            rel: Vec::new(),
            is_dir: true,
            is_symlink: false,
            points_to_dir: true,
        };
        let mut stack: Vec<WalkItem> = Vec::new();
        stack.push(root);
        DirWalk { path: p, src_path: Ghost(src_path@), follow, stack, listing: None }
    }

    /// The next path of the walk, the last one pushed: what to do with it and
    /// under which name; nothing once every path was visited. After a
    /// directory step the walk waits for the directory's entries.
    pub fn next_step(&mut self) -> (r: Option<WalkStep>)
        ensures
            final(self).root_name() == old(self).root_name(),
            final(self).source_root() == old(self).source_root(),
            old(self).wf() ==> final(self).wf(),
            final(self).follows() == old(self).follows(),
            old(self).pending().len() == 0 ==> r is None && final(self).pending() == old(
                self,
            ).pending() && final(self).awaiting() is None,
            old(self).pending().len() > 0 ==> {
                let it = old(self).pending().last();
                &&& r matches Some(s) && step_view(s) == step_for(
                    old(self).root_name(),
                    old(self).follows(),
                    it,
                )
                &&& final(self).pending() == old(self).pending().drop_last()
                &&& final(self).awaiting() == (if descends(it, old(self).follows()) {
                    Some(it)
                } else {
                    None::<WalkItem>
                })
            },
    {
        match self.stack.pop() {
            None => {
                self.listing = None;
                None
            },
            Some(it) => {
                let dest = join_path(self.path.as_slice(), it.rel.as_slice());
                if it.is_dir || (it.is_symlink && self.follow && it.points_to_dir) {
                    let src = copy_vec(&it.src);
                    let with_entry = dest.len() > 0;
                    self.listing = Some(it);
                    Some(WalkStep::Dir { src, dest, with_entry })
                } else if !self.follow && it.is_symlink {
                    self.listing = None;
                    Some(WalkStep::Link { src: it.src, dest })
                } else {
                    self.listing = None;
                    Some(WalkStep::File { src: it.src, dest })
                }
            },
        }
    }

    /// Hands over the entries of the directory of the last step, in the order
    /// listed: they are visited last listed first.
    pub fn push_entries(&mut self, entries: &Vec<DirEntryInfo>)
        requires
            old(self).awaiting() is Some,
        ensures
            final(self).root_name() == old(self).root_name(),
            final(self).source_root() == old(self).source_root(),
            old(self).wf() ==> final(self).wf(),
            final(self).follows() == old(self).follows(),
            final(self).awaiting() is None,
            final(self).pending().len() == old(self).pending().len() + entries@.len(),
            forall|i: int|
                0 <= i < old(self).pending().len() ==> #[trigger] final(self).pending()[i] == old(
                    self,
                ).pending()[i],
            forall|i: int|
                0 <= i < entries@.len() ==> is_child_item(
                    #[trigger] final(self).pending()[old(self).pending().len() + i],
                    old(self).awaiting()->Some_0,
                    entries@[i],
                ),
    {
        match self.listing.take() {
            Some(parent) => {
                push_children(&mut self.stack, &parent, entries);
                proof {
                    if old(self).wf() {
                        assert forall|i: int|
                            0 <= i < self.pending().len() implies rooted(
                            #[trigger] self.pending()[i],
                            self.source_root(),
                        ) by {
                            if i >= old(self).pending().len() {
                                let k = i - old(self).pending().len();
                                assert(is_child_item(
                                    self.stack@[old(self).stack@.len() + k],
                                    parent,
                                    entries@[k],
                                ));
                                law_child_rooted(
                                    self.pending()[i],
                                    parent,
                                    entries@[k],
                                    self.source_root(),
                                );
                            }
                        }
                    }
                }
            },
            None => {},
        }
    }
}

} // verus!
