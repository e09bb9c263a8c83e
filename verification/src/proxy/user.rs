//! What the proxy keeps per client (the descriptors it has opened, with
//! their flags) and, shared by all clients, the path behind each
//! descriptor.
use vstd::prelude::*;
use vstd::string::StringExecFns;
use crate::text::str_equal;
use crate::proxy::cache::{Cache, CacheView};

verus! {

/// The `open` flag that makes writes append.
pub const O_APPEND: i32 = 1024;

/// Slots of the path table that hold no path.
pub open spec fn uninit_text() -> Seq<char> {
    "UNINIT"@
}

#[derive(Debug, Clone, Copy, PartialEq, Eq)]
pub struct File {
    pub fd: i32,
    pub flags: i32,
}

#[derive(Debug)]
pub struct User {
    client_id: i32,
    file_opened: Vec<File>,
}

impl View for User {
    type V = Seq<(i32, i32)>;

    closed spec fn view(&self) -> Seq<(i32, i32)> {
        self.file_opened@.map_values(|f: File| (f.fd, f.flags))
    }
}

/// The position of the first file opened under `fd`.
pub open spec fn first_with(files: Seq<(i32, i32)>, fd: i32) -> Option<int> {
    if exists|i: int| 0 <= i < files.len() && files[i].0 == fd {
        Some(
            choose|i: int|
                0 <= i < files.len() && files[i].0 == fd && forall|j: int|
                    0 <= j < i ==> #[trigger] files[j].0 != fd,
        )
    } else {
        None
    }
}

/// Whether writes under `fd` append: the first file opened under it
/// carries `O_APPEND`.
pub open spec fn appends(files: Seq<(i32, i32)>, fd: i32) -> bool {
    match first_with(files, fd) {
        Some(i) => files[i].1 & O_APPEND != 0,
        None => false,
    }
}

/// A descriptor just opened, and not open before, is found at the end;
/// closing it gives back the files as they were, and its writes append
/// exactly when it was opened with `O_APPEND`.
pub proof fn lemma_open_then_close(files: Seq<(i32, i32)>, fd: i32, flags: i32)
    requires
        first_with(files, fd) is None,
    ensures
        first_with(files.push((fd, flags)), fd) == Some(files.len() as int),
        files.push((fd, flags)).remove(files.len() as int) == files,
        appends(files.push((fd, flags)), fd) == (flags & O_APPEND != 0),
{
    let g = files.push((fd, flags));
    assert(g[files.len() as int].0 == fd);
    assert forall|j: int| 0 <= j < files.len() implies #[trigger] g[j].0 != fd by {
        assert(g[j] == files[j]);
        if g[j].0 == fd {
            assert(files[j].0 == fd);
        }
    }
    let w = choose|i: int| 0 <= i < g.len() && g[i].0 == fd && forall|j: int| 0 <= j < i ==> #[trigger] g[j].0 != fd;
    if w < files.len() {
        assert(g[w].0 != fd);
    }
    assert(g.remove(files.len() as int) =~= files);
}

/// Finds the first position of `fd`: the search that `first_with` names.
fn position_of(files: &Vec<File>, fd: i32) -> (r: Option<usize>)
    ensures
        r matches Some(i) ==> i < files@.len() && files@[i as int].fd == fd,
        match (r, first_with(files@.map_values(|f: File| (f.fd, f.flags)), fd)) {
            (Some(i), Some(j)) => i == j,
            (None, None) => true,
            _ => false,
        },
{
    let ghost fs = files@.map_values(|f: File| (f.fd, f.flags));
    let mut i: usize = 0;
    while i < files.len()
        invariant
            i <= files@.len(),
            fs == files@.map_values(|f: File| (f.fd, f.flags)),
            forall|j: int| 0 <= j < i ==> #[trigger] fs[j].0 != fd,
        decreases files@.len() - i,
    {
        if files[i].fd == fd {
            proof {
                assert(fs[i as int].0 == fd);
                let w = choose|k: int|
                    0 <= k < fs.len() && fs[k].0 == fd && forall|j: int| 0 <= j < k ==> #[trigger] fs[j].0 != fd;
                assert(forall|j: int| 0 <= j < i ==> #[trigger] fs[j].0 != fd);
                if w < i {
                    assert(fs[w].0 != fd);
                } else if w > i {
                    assert(fs[i as int].0 != fd);
                }
            }
            return Some(i);
        }
        i = i + 1;
    }
    proof {
        if exists|k: int| 0 <= k < fs.len() && fs[k].0 == fd {
            let k = choose|k: int| 0 <= k < fs.len() && fs[k].0 == fd;
            assert(fs[k].0 != fd);
        }
    }
    None
}

impl User {
    pub closed spec fn id(&self) -> i32 {
        self.client_id
    }

    /// The client's number.
    pub fn client_id(&self) -> (r: i32)
        ensures
            r == self.id(),
    {
        self.client_id
    }

    /// A client with no files open.
    pub fn new(client_id: i32) -> (u: User)
        ensures
            u.id() == client_id,
            u@ == Seq::<(i32, i32)>::empty(),
    {
        let u = User { client_id, file_opened: Vec::new() };
        assert(u@ =~= Seq::<(i32, i32)>::empty());
        u
    }

    /// Records that the client opened `fd` with `flags`.
    pub fn open_file(&mut self, fd: i32, flags: i32)
        ensures
            final(self)@ == old(self)@.push((fd, flags)),
            final(self).id() == old(self).id(),
    {
        self.file_opened.push(File { fd, flags });
        assert(self@ =~= old(self)@.push((fd, flags)));
    }

    /// Whether the client's writes under `fd` append.
    pub fn is_appendable(&self, fd: i32) -> (r: bool)
        ensures
            r == appends(self@, fd),
    {
        match position_of(&self.file_opened, fd) {
            Some(i) => {
                assert(self@[i as int] == (self.file_opened@[i as int].fd, self.file_opened@[i as int].flags));
                self.file_opened[i].flags & O_APPEND != 0
            },
            None => false,
        }
    }

    /// Forgets the first file opened under `fd`; says whether there was one.
    pub fn close_file(&mut self, fd: i32) -> (closed: bool)
        ensures
            final(self).id() == old(self).id(),
            match first_with(old(self)@, fd) {
                Some(i) => closed && final(self)@ == old(self)@.remove(i),
                None => !closed && final(self)@ == old(self)@,
            },
    {
        match position_of(&self.file_opened, fd) {
            Some(i) => {
                self.file_opened.remove(i);
                assert(self@ =~= old(self)@.remove(i as int));
                true
            },
            None => false,
        }
    }

    /// The files the client has open, in the order opened.
    pub fn files(&self) -> (r: &Vec<File>)
        ensures
            r@.map_values(|f: File| (f.fd, f.flags)) == self@,
    {
        &self.file_opened
    }
}

/// The path behind each descriptor, shared by all clients; unused slots
/// hold "UNINIT".
#[derive(Debug)]
pub struct PathMapper {
    paths: Vec<String>,
}

impl View for PathMapper {
    type V = Seq<Seq<char>>;

    closed spec fn view(&self) -> Seq<Seq<char>> {
        self.paths@.map_values(|p: String| p@)
    }
}

/// The first slot that holds `path`.
pub open spec fn first_path(paths: Seq<Seq<char>>, path: Seq<char>) -> Option<int> {
    if exists|i: int| 0 <= i < paths.len() && paths[i] == path {
        Some(
            choose|i: int|
                0 <= i < paths.len() && paths[i] == path && forall|j: int|
                    0 <= j < i ==> #[trigger] paths[j] != path,
        )
    } else {
        None
    }
}

/// Whether descriptor `i` is among `fds`.
pub open spec fn listed(fds: Seq<i32>, i: int) -> bool {
    exists|k: int| 0 <= k < fds.len() && fds[k] as int == i
}

/// The table after `path` is put under `fd`, grown with "UNINIT" slots
/// as far as needed.
pub open spec fn assigned(paths: Seq<Seq<char>>, fd: int, path: Seq<char>) -> Seq<Seq<char>> {
    let grown = if fd >= paths.len() {
        paths + Seq::new((fd + 1 - paths.len()) as nat, |k: int| uninit_text())
    } else {
        paths
    };
    grown.update(fd, path)
}

/// After `path` is put under `fd`, the first slot holding it is `fd`,
/// if no slot held it before (and, where the table grows past its end,
/// it is no "UNINIT").
pub proof fn lemma_assign_then_find(paths: Seq<Seq<char>>, fd: int, path: Seq<char>)
    requires
        fd >= 0,
        first_path(paths, path) is None,
        fd > paths.len() ==> path != uninit_text(),
    ensures
        first_path(assigned(paths, fd, path), path) == Some(fd),
        assigned(paths, fd, path)[fd] == path,
{
    let a = assigned(paths, fd, path);
    assert(a[fd] == path);
    assert forall|j: int| 0 <= j < fd implies #[trigger] a[j] != path by {
        if j < paths.len() {
            assert(a[j] == paths[j]);
            if paths[j] == path {
                assert(exists|i: int| 0 <= i < paths.len() && paths[i] == path);
            }
        } else {
            assert(a[j] == uninit_text());
        }
    }
    let w = choose|i: int| 0 <= i < a.len() && a[i] == path && forall|j: int| 0 <= j < i ==> #[trigger] a[j] != path;
    if w < fd {
        assert(a[w] != path);
    } else if w > fd {
        assert(a[fd] != path);
    }
}

impl PathMapper {
    pub fn new() -> (m: PathMapper)
        ensures
            m@ == Seq::<Seq<char>>::empty(),
    {
        let m = PathMapper { paths: Vec::new() };
        assert(m@ =~= Seq::<Seq<char>>::empty());
        m
    }

    /// The number of slots.
    pub fn len(&self) -> (r: usize)
        ensures
            r == self@.len(),
    {
        self.paths.len()
    }

    /// The first slot that holds `path`, as a descriptor; -1 if none.
    pub fn find(&self, path: &str) -> (fd: i32)
        ensures
            match first_path(self@, path@) {
                Some(i) => 0 <= i < self@.len() && fd == i as i32,
                None => fd == -1,
            },
    {
        let ghost ps = self@;
        let mut i: usize = 0;
        while i < self.paths.len()
            invariant
                i <= self.paths@.len(),
                ps == self@,
                ps == self.paths@.map_values(|p: String| p@),
                forall|j: int| 0 <= j < i ==> #[trigger] ps[j] != path@,
            decreases self.paths@.len() - i,
        {
            if str_equal(self.paths[i].as_str(), path) {
                proof {
                    assert(ps[i as int] == path@);
                    let w = choose|k: int|
                        0 <= k < ps.len() && ps[k] == path@ && forall|j: int| 0 <= j < k ==> #[trigger] ps[j] != path@;
                    if w < i {
                        assert(ps[w] != path@);
                    } else if w > i {
                        assert(ps[i as int] != path@);
                    }
                }
                return i as i32;
            }
            i = i + 1;
        }
        proof {
            if exists|k: int| 0 <= k < ps.len() && ps[k] == path@ {
                let k = choose|k: int| 0 <= k < ps.len() && ps[k] == path@;
                assert(ps[k] != path@);
            }
        }
        -1
    }

    /// Puts `path` under `fd`, growing the table with "UNINIT" slots.
    pub fn assign(&mut self, fd: i32, path: &str)
        requires
            fd >= 0,
        ensures
            final(self)@ == assigned(old(self)@, fd as int, path@),
    {
        let ghost start = self@;
        while (fd as usize) >= self.paths.len()
            invariant
                fd >= 0,
                self@.len() >= start.len(),
                self@ == start + Seq::new((self@.len() - start.len()) as nat, |k: int| uninit_text()),
                self@.len() <= start.len() || self@.len() <= fd + 1,
            decreases fd + 1 - self.paths@.len(),
        {
            let ghost before = self@;
            self.paths.push(String::from_str("UNINIT"));
            assert(self@ =~= before.push(uninit_text()));
            assert(self@ =~= start + Seq::new((self@.len() - start.len()) as nat, |k: int| uninit_text()));
        }
        let ghost grown = self@;
        self.paths.set(fd as usize, String::from_str(path));
        proof {
            if fd >= start.len() {
                assert(grown.len() == fd + 1);
                assert(grown =~= start + Seq::new((fd + 1 - start.len()) as nat, |k: int| uninit_text()));
            } else {
                assert(grown =~= start);
            }
            assert(self@ =~= grown.update(fd as int, path@));
        }
    }

    /// The path under `fd`.
    pub fn file_name(&self, fd: i32) -> (s: String)
        requires
            0 <= fd < self@.len(),
        ensures
            s@ == self@[fd as int],
    {
        self.paths[fd as usize].clone()
    }

    /// Marks the slots of descriptors given up by the cache as unused.
    pub fn release(&mut self, fds: &Vec<i32>)
        requires
            forall|k: int| 0 <= k < fds@.len() ==> 0 <= #[trigger] fds@[k] < old(self)@.len(),
        ensures
            final(self)@.len() == old(self)@.len(),
            forall|i: int|
                0 <= i < old(self)@.len() ==> #[trigger] final(self)@[i] == if listed(fds@, i) {
                    uninit_text()
                } else {
                    old(self)@[i]
                },
    {
        let mut k: usize = 0;
        while k < fds.len()
            invariant
                k <= fds@.len(),
                forall|m: int| 0 <= m < fds@.len() ==> 0 <= #[trigger] fds@[m] < old(self)@.len(),
                self@.len() == old(self)@.len(),
                forall|i: int|
                    0 <= i < old(self)@.len() ==> #[trigger] self@[i] == if listed(fds@.subrange(0, k as int), i) {
                        uninit_text()
                    } else {
                        old(self)@[i]
                    },
            decreases fds@.len() - k,
        {
            let fd = fds[k];
            let ghost before = self@;
            self.paths.set(fd as usize, String::from_str("UNINIT"));
            proof {
                assert(self@ =~= before.update(fd as int, uninit_text()));
                let pre = fds@.subrange(0, k as int);
                let post = fds@.subrange(0, k + 1);
                assert(post =~= pre.push(fd));
                assert forall|i: int| 0 <= i < old(self)@.len() implies #[trigger] self@[i] == if listed(post, i) {
                    uninit_text()
                } else {
                    old(self)@[i]
                } by {
                    if i == fd as int {
                        assert(post[k as int] == fd);
                        assert(listed(post, i));
                    } else {
                        assert(listed(post, i) == listed(pre, i)) by {
                            if listed(post, i) {
                                let w = choose|w: int| 0 <= w < post.len() && post[w] as int == i;
                                assert(w < pre.len());
                                assert(pre[w] == post[w]);
                            }
                            if listed(pre, i) {
                                let w = choose|w: int| 0 <= w < pre.len() && pre[w] as int == i;
                                assert(post[w] == pre[w]);
                            }
                        }
                    }
                }
            }
            k = k + 1;
        }
        assert(fds@.subrange(0, fds@.len() as int) =~= fds@);
    }
}

/// The descriptor a client's `OPEN` of `path` gets: the first slot of the
/// path table that holds `path`, or else the cache's next descriptor.
pub open spec fn open_fd(paths: Seq<Seq<char>>, next_fd: i32, path: Seq<char>) -> int {
    match first_path(paths, path) {
        Some(i) => i,
        None => (next_fd % i32::MAX) as int,
    }
}

/// Carries out a client's `OPEN` of `path` with `flags` and answers the
/// descriptor: the first slot of the path table holding `path`, or else a
/// new one from the cache's counter; the client records it as opened
/// with `flags`, and the table puts `path` under it.
pub fn open_descriptor(paths: &mut PathMapper, cache: &mut Cache, user: &mut User, path: &str, flags: i32) -> (fd: i32)
    requires
        old(cache).wf(),
        old(paths)@.len() <= i32::MAX,
        first_path(old(paths)@, path@) is None ==> old(cache)@.next_fd < i32::MAX,
    ensures
        fd == open_fd(old(paths)@, old(cache)@.next_fd, path@),
        fd >= 0,
        final(cache).wf(),
        final(cache)@ == (if first_path(old(paths)@, path@) is None {
            CacheView { next_fd: (old(cache)@.next_fd + 1) as i32, ..old(cache)@ }
        } else {
            old(cache)@
        }),
        final(user)@ == old(user)@.push((fd, flags)),
        final(user).id() == old(user).id(),
        final(paths)@ == assigned(old(paths)@, fd as int, path@),
{
    let mut fd = paths.find(path);
    if fd == -1 {
        fd = cache.generate_fd();
    }
    user.open_file(fd, flags);
    paths.assign(fd, path);
    fd
}

} // verus!
