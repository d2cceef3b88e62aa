//! What a coverage tool tells of a run: the files and functions that it saw,
//! and how often each region of a function was executed.

use vstd::prelude::*;
use vstd::string::*;
use vstd::utf8::*;

verus! {

/// What a run tells, set by set.
#[derive(Debug)]
pub struct Export {
    pub version: String,
    pub data: Vec<Data>,
}

/// One set of files and functions, with its totals.
#[derive(Debug)]
pub struct Data {
    pub files: Vec<File>,
    pub functions: Vec<Function>,
    pub totals: Summary,
}

/// A file with the segments that were seen of it.
#[derive(Debug)]
pub struct File {
    pub filename: String,
    pub segments: Vec<Segment>,
    pub summary: Summary,
}

/// A function with its regions, and how often it was called.
#[derive(Debug)]
pub struct Function {
    pub count: usize,
    pub filenames: Vec<String>,
    pub name: String,
    pub regions: Vec<Region>,
}

/// A place in a file from which a count holds.
#[derive(Clone, Copy, Debug)]
pub struct Segment {
    pub line: usize,
    pub col: usize,
    pub execution_count: u64,
    pub has_count: bool,
    pub is_region_entry: bool,
    pub is_gap_region: bool,
}

/// A region of a function: from a line and a column to a line and a column,
/// both counted from 1, with the number of times it was executed.
#[derive(Clone, Copy, Debug)]
pub struct Region {
    pub line_start: usize,
    pub col_start: usize,
    pub line_end: usize,
    pub col_end: usize,
    pub execution_count: u64,
    pub file_id: usize,
    pub expanded_file_id: usize,
    pub kind: u64,
}

/// The totals of a set.
#[derive(Clone, Copy, Debug)]
pub struct Summary {
    pub functions: Total,
    pub instantiations: Total,
    pub lines: Total,
    pub regions: Total,
}

/// How many there are of something, and how many of them were covered.
#[derive(Clone, Copy, Debug)]
pub struct Total {
    pub count: u64,
    pub covered: u64,
}

/// The name is a path from the root: it starts with a slash.
pub open spec fn external(name: Seq<u8>) -> bool {
    name.len() > 0 && name[0] == 47
}

/// Whether the name is a path from the root.
fn is_external(name: &str) -> (b: bool)
    ensures
        b == external(name.spec_bytes()),
{
    let bytes = name.as_bytes();
    bytes.len() > 0 && bytes[0] == 47
}

impl File {
    /// The file lies outside the project: its name is a path from the root.
    pub open spec fn external(&self) -> bool {
        external(encode_utf8(self.filename@))
    }

    /// Whether the file lies outside the project.
    pub fn is_external(&self) -> (b: bool)
        ensures
            b == self.external(),
    {
        is_external(self.filename.as_str())
    }
}

impl Function {
    /// Every file of the function lies outside the project.
    pub open spec fn external(&self) -> bool {
        forall|i: int|
            0 <= i < self.filenames@.len() ==> external(
                encode_utf8((#[trigger] self.filenames@[i])@),
            )
    }

    /// The function was never called, or lies outside the project.
    pub open spec fn empty(&self) -> bool {
        self.count == 0 || self.external()
    }

    /// Whether the function was never called, or lies outside the project.
    pub fn is_empty(&self) -> (b: bool)
        ensures
            b == self.empty(),
    {
        self.count == 0 || self.is_external()
    }

    /// Whether every file of the function lies outside the project.
    pub fn is_external(&self) -> (b: bool)
        ensures
            b == self.external(),
    {
        let mut i: usize = 0;
        while i < self.filenames.len()
            invariant
                i <= self.filenames@.len(),
                forall|k: int|
                    0 <= k < i ==> external(encode_utf8((#[trigger] self.filenames@[k])@)),
            decreases self.filenames@.len() - i,
        {
            if !is_external(self.filenames[i].as_str()) {
                return false;
            }
            i += 1;
        }
        true
    }
}

impl Region {
    /// The lines and columns of the region can be looked up: they are
    /// counted from 1, and have 32 bits.
    pub open spec fn wf(&self) -> bool {
        &&& 1 <= self.line_start <= u32::MAX
        &&& 1 <= self.line_end <= u32::MAX
        &&& self.col_start <= u32::MAX
        &&& 1 <= self.col_end <= u32::MAX
    }

    /// What is looked up to find the bytes of the region: the places of its
    /// start and of its end, with lines and columns counted from 0.
    pub fn places(&self) -> (r: ((u32, u32), (u32, u32)))
        requires
            self.wf(),
        ensures
            r.0.0 == self.line_start - 1,
            r.0.1 == if self.col_start == 0 {
                0
            } else {
                self.col_start - 1
            },
            r.1.0 == self.line_end - 1,
            r.1.1 == self.col_end - 1,
    {
        let col_start = if self.col_start == 0 {
            0
        } else {
            self.col_start - 1
        };
        (
            ((self.line_start - 1) as u32, col_start as u32),
            ((self.line_end - 1) as u32, (self.col_end - 1) as u32),
        )
    }
}

/// The files that lie in the project, in their order.
pub open spec fn internal_files(files: Seq<File>) -> Seq<File>
    decreases files.len(),
{
    if files.len() == 0 {
        Seq::empty()
    } else if files.last().external() {
        internal_files(files.drop_last())
    } else {
        internal_files(files.drop_last()).push(files.last())
    }
}

/// The functions that were called and lie in the project, in their order.
pub open spec fn called_functions(functions: Seq<Function>) -> Seq<Function>
    decreases functions.len(),
{
    if functions.len() == 0 {
        Seq::empty()
    } else if functions.last().empty() {
        called_functions(functions.drop_last())
    } else {
        called_functions(functions.drop_last()).push(functions.last())
    }
}

impl Data {
    /// The set tells nothing: it has neither files nor functions, or none
    /// of its regions was covered.
    pub open spec fn empty(&self) -> bool {
        (self.files@.len() == 0 && self.functions@.len() == 0) || self.totals.regions.covered == 0
    }

    /// Whether the set tells nothing.
    pub fn is_empty(&self) -> (b: bool)
        ensures
            b == self.empty(),
    {
        let is_empty = self.files.len() == 0 && self.functions.len() == 0;

        is_empty || self.totals.regions.covered == 0
    }

    /// Drops the files that lie outside the project, and the functions that
    /// were never called or lie outside it.
    pub fn trim(&mut self)
        ensures
            final(self).files@ == internal_files(old(self).files@),
            final(self).functions@ == called_functions(old(self).functions@),
            final(self).totals == old(self).totals,
    {
        let ghost files = self.files@;
        let ghost functions = self.functions@;
        let mut kept_files: Vec<File> = Vec::new();
        proof {
            assert(files.take(files.len() as int) =~= files);
        }
        while self.files.len() > 0
            invariant
                self.functions@ == functions,
                self.totals == old(self).totals,
                self.files@.len() <= files.len(),
                self.files@ == files.take(self.files@.len() as int),
                internal_files(files) == internal_files(self.files@) + kept_files@.reverse(),
            decreases self.files@.len(),
        {
            let ghost before = self.files@;
            let ghost had = kept_files@;
            let file = self.files.pop().unwrap();
            proof {
                assert(before.drop_last() =~= self.files@);
                assert(self.files@ =~= files.take(self.files@.len() as int));
            }
            if !file.is_external() {
                kept_files.push(file);
                proof {
                    assert(kept_files@.reverse() =~= seq![file] + had.reverse());
                    assert(internal_files(before) + had.reverse() =~= internal_files(self.files@)
                        + kept_files@.reverse());
                }
            }
        }
        proof {
            assert(internal_files(self.files@) =~= Seq::<File>::empty());
            assert(internal_files(files) =~= kept_files@.reverse());
        }
        let ghost target = kept_files@.reverse();
        while kept_files.len() > 0
            invariant
                self.functions@ == functions,
                self.totals == old(self).totals,
                target == self.files@ + kept_files@.reverse(),
            decreases kept_files@.len(),
        {
            let ghost had = kept_files@;
            let file = kept_files.pop().unwrap();
            proof {
                assert(had.reverse() =~= seq![file] + kept_files@.reverse());
                assert(self.files@.push(file) + kept_files@.reverse() =~= self.files@ + had.reverse());
            }
            self.files.push(file);
        }
        proof {
            assert(self.files@ + kept_files@.reverse() =~= self.files@);
        }

        let mut kept: Vec<Function> = Vec::new();
        proof {
            assert(functions.take(functions.len() as int) =~= functions);
        }
        while self.functions.len() > 0
            invariant
                self.files@ == internal_files(files),
                self.totals == old(self).totals,
                self.functions@.len() <= functions.len(),
                self.functions@ == functions.take(self.functions@.len() as int),
                called_functions(functions) == called_functions(self.functions@) + kept@.reverse(),
            decreases self.functions@.len(),
        {
            let ghost before = self.functions@;
            let ghost had = kept@;
            let function = self.functions.pop().unwrap();
            proof {
                assert(before.drop_last() =~= self.functions@);
                assert(self.functions@ =~= functions.take(self.functions@.len() as int));
            }
            if !function.is_empty() {
                kept.push(function);
                proof {
                    assert(kept@.reverse() =~= seq![function] + had.reverse());
                    assert(called_functions(before) + had.reverse() =~= called_functions(
                        self.functions@,
                    ) + kept@.reverse());
                }
            }
        }
        proof {
            assert(called_functions(self.functions@) =~= Seq::<Function>::empty());
            assert(called_functions(functions) =~= kept@.reverse());
        }
        let ghost wanted = kept@.reverse();
        while kept.len() > 0
            invariant
                self.files@ == internal_files(files),
                self.totals == old(self).totals,
                wanted == self.functions@ + kept@.reverse(),
            decreases kept@.len(),
        {
            let ghost had = kept@;
            let function = kept.pop().unwrap();
            proof {
                assert(had.reverse() =~= seq![function] + kept@.reverse());
                assert(self.functions@.push(function) + kept@.reverse() =~= self.functions@
                    + had.reverse());
            }
            self.functions.push(function);
        }
        proof {
            assert(self.functions@ + kept@.reverse() =~= self.functions@);
        }
    }
}

/// `after` is `before` without the files that lie outside the project and
/// without the functions that were never called or lie outside it.
pub open spec fn trimmed_from(after: Data, before: Data) -> bool {
    &&& after.files@ == internal_files(before.files@)
    &&& after.functions@ == called_functions(before.functions@)
    &&& after.totals == before.totals
}

/// `after` are the sets of `before`, each trimmed, without those that tell
/// nothing once they are trimmed, in their order.
pub open spec fn trimmed_sets(before: Seq<Data>, after: Seq<Data>) -> bool
    decreases before.len(),
{
    if before.len() == 0 {
        after.len() == 0
    } else if after.len() > 0 && trimmed_from(after.last(), before.last()) && !after.last().empty() {
        trimmed_sets(before.drop_last(), after.drop_last())
    } else {
        (exists|d: Data| trimmed_from(d, before.last()) && d.empty()) && trimmed_sets(
            before.drop_last(),
            after,
        )
    }
}

impl Export {
    /// Trims every set, and drops the sets that tell nothing then.
    pub fn trim(&mut self)
        ensures
            trimmed_sets(old(self).data@, final(self).data@),
            final(self).version == old(self).version,
    {
        let ghost data = self.data@;
        let mut kept: Vec<Data> = Vec::new();
        proof {
            assert(data.take(data.len() as int) =~= data);
        }
        // from the last set to the first, so that `kept` holds them in
        // reverse
        while self.data.len() > 0
            invariant
                self.version == old(self).version,
                self.data@.len() <= data.len(),
                self.data@ == data.take(self.data@.len() as int),
                forall|rest: Seq<Data>|
                    trimmed_sets(self.data@, rest) ==> #[trigger] trimmed_sets(
                        data,
                        rest + kept@.reverse(),
                    ),
            decreases self.data@.len(),
        {
            let ghost before = self.data@;
            let ghost had = kept@;
            let mut set = self.data.pop().unwrap();
            let ghost source = set;
            set.trim();
            proof {
                assert(before.drop_last() =~= self.data@);
                assert(before.last() == source);
                assert(self.data@ =~= data.take(self.data@.len() as int));
                assert(trimmed_from(set, source));
            }
            if !set.is_empty() {
                kept.push(set);
                proof {
                    assert forall|rest: Seq<Data>| trimmed_sets(self.data@, rest) implies #[trigger]
                        trimmed_sets(data, rest + kept@.reverse()) by {
                        let more = rest.push(set);
                        assert(more.drop_last() =~= rest);
                        assert(more.last() == set);
                        assert(trimmed_sets(before, more));
                        assert(more + had.reverse() =~= rest + kept@.reverse());
                    }
                }
            } else {
                proof {
                    assert forall|rest: Seq<Data>| trimmed_sets(self.data@, rest) implies #[trigger]
                        trimmed_sets(data, rest + kept@.reverse()) by {
                        if rest.len() > 0 && trimmed_from(rest.last(), before.last())
                            && !rest.last().empty() {
                            // a set that is trimmed from the same source tells as much
                            assert(rest.last().files@ == set.files@);
                            assert(rest.last().empty() == set.empty());
                        }
                        assert(trimmed_sets(before, rest));
                    }
                }
            }
        }
        proof {
            let none = Seq::<Data>::empty();
            assert(trimmed_sets(self.data@, none));
            assert(none + kept@.reverse() =~= kept@.reverse());
        }
        let ghost target = kept@.reverse();
        while kept.len() > 0
            invariant
                self.version == old(self).version,
                target == self.data@ + kept@.reverse(),
            decreases kept@.len(),
        {
            let ghost had = kept@;
            let set = kept.pop().unwrap();
            proof {
                assert(had.reverse() =~= seq![set] + kept@.reverse());
                assert(self.data@.push(set) + kept@.reverse() =~= self.data@ + had.reverse());
            }
            self.data.push(set);
        }
        proof {
            assert(self.data@ + kept@.reverse() =~= self.data@);
        }
    }
}

} // verus!
