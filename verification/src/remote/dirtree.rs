//! A directory tree as the server reports it: each directory on a line
//! of its own, indented by one tab per level, with its number of entries.
use vstd::prelude::*;
use crate::text::{int_text, push_int, chars_of, chars_to_string};

verus! {

#[derive(Debug, PartialEq, Eq)]
pub struct DirTreeNodes {
    name: String,
    num_subdir: i32,
    subdirs: Vec<DirTreeNodes>,
}

/// One line of the listing: `indent` tabs, the name, a colon, the count.
pub open spec fn tree_line(name: Seq<char>, count: i32, indent: nat) -> Seq<char> {
    Seq::new(indent, |k: int| '\t') + name + seq![':'] + int_text(count as int) + seq!['\n']
}

impl DirTreeNodes {
    /// Every directory counts exactly its subdirectories.
    #[verifier::type_invariant]
    spec fn counts_subdirs(self) -> bool {
        self.num_subdir == self.subdirs@.len() as i32
    }

    pub closed spec fn spec_name(self) -> Seq<char> {
        self.name@
    }

    pub closed spec fn spec_count(self) -> i32 {
        self.num_subdir
    }

    pub closed spec fn spec_subdirs(self) -> Seq<DirTreeNodes> {
        self.subdirs@
    }

    /// The listing of the tree, its root at `indent`: each directory on a
    /// line with the number of its subdirectories, then theirs, one tab deeper.
    pub open spec fn text(self, indent: nat) -> Seq<char>
        decreases self,
    {
        tree_line(self.spec_name(), self.spec_subdirs().len() as i32, indent) + Self::forest_text(
            self.spec_subdirs(),
            indent + 1,
        )
    }

    /// The listings of `ts`, one after another.
    pub open spec fn forest_text(ts: Seq<DirTreeNodes>, indent: nat) -> Seq<char>
        decreases ts,
    {
        if ts.len() == 0 {
            Seq::<char>::empty()
        } else {
            Self::forest_text(ts.drop_last(), indent) + ts.last().text(indent)
        }
    }

    /// The number of levels of the tree.
    pub open spec fn depth(self) -> nat
        decreases self,
    {
        1 + Self::forest_depth(self.spec_subdirs())
    }

    pub open spec fn forest_depth(ts: Seq<DirTreeNodes>) -> nat
        decreases ts,
    {
        if ts.len() == 0 {
            0
        } else {
            let a = Self::forest_depth(ts.drop_last());
            let b = ts.last().depth();
            if a >= b { a } else { b }
        }
    }

    /// A directory with the given entries; it counts them.
    pub fn new(name: String, subdirs: Vec<DirTreeNodes>) -> (t: DirTreeNodes)
        ensures
            t.spec_name() == name@,
            t.spec_count() == subdirs@.len() as i32,
            t.spec_subdirs() == subdirs@,
    {
        let num_subdir = subdirs.len() as i32;
        DirTreeNodes { name, num_subdir, subdirs }
    }

    /// The listing of the tree, its root indented by `indent` tabs.
    pub fn fmt_with_indent(&self, indent: usize) -> (s: String)
        requires
            indent + self.depth() <= usize::MAX,
        ensures
            s@ == self.text(indent as nat),
    {
        let mut out: Vec<char> = Vec::new();
        self.write_text(indent, &mut out);
        chars_to_string(&out)
    }

    proof fn lemma_forest_depth(ts: Seq<DirTreeNodes>, k: int)
        requires
            0 <= k < ts.len(),
        ensures
            ts[k].depth() <= Self::forest_depth(ts),
        decreases ts.len(),
    {
        if k < ts.len() - 1 {
            Self::lemma_forest_depth(ts.drop_last(), k);
        }
    }

    fn write_text(&self, indent: usize, out: &mut Vec<char>)
        requires
            indent + self.depth() <= usize::MAX,
        ensures
            final(out)@ == old(out)@ + self.text(indent as nat),
        decreases self,
    {
        let mut t: usize = 0;
        while t < indent
            invariant
                t <= indent,
                out@ == old(out)@ + Seq::new(t as nat, |k: int| '\t'),
            decreases indent - t,
        {
            out.push('\t');
            t = t + 1;
            assert(out@ =~= old(out)@ + Seq::new(t as nat, |k: int| '\t'));
        }
        let name = chars_of(self.name.as_str());
        let mut j: usize = 0;
        let ghost mid = out@;
        while j < name.len()
            invariant
                j <= name@.len(),
                out@ == mid + name@.subrange(0, j as int),
            decreases name@.len() - j,
        {
            out.push(name[j]);
            j = j + 1;
            assert(out@ =~= mid + name@.subrange(0, j as int));
        }
        assert(name@.subrange(0, j as int) =~= name@);
        out.push(':');
        proof { use_type_invariant(self); }
        push_int(out, self.num_subdir as i128);
        out.push('\n');
        assert(out@ =~= old(out)@ + tree_line(self.name@, self.num_subdir, indent as nat));
        let ghost line_end = out@;
        let mut i: usize = 0;
        while i < self.subdirs.len()
            invariant
                i <= self.subdirs@.len(),
                indent + self.depth() <= usize::MAX,
                out@ == line_end + Self::forest_text(self.subdirs@.subrange(0, i as int), (indent + 1) as nat),
            decreases self.subdirs@.len() - i,
        {
            proof {
                Self::lemma_forest_depth(self.subdirs@, i as int);
                let pre = self.subdirs@.subrange(0, i as int);
                let post = self.subdirs@.subrange(0, i + 1);
                assert(post.drop_last() =~= pre);
                assert(post.last() == self.subdirs@[i as int]);
            }
            self.subdirs[i].write_text(indent + 1, out);
            i = i + 1;
            assert(out@ =~= line_end + Self::forest_text(self.subdirs@.subrange(0, i as int), (indent + 1) as nat));
        }
        assert(self.subdirs@.subrange(0, i as int) =~= self.subdirs@);
    }
}

} // verus!
