//! The list of input files of an imposition job, reordered and pruned by the
//! arrow and cross buttons drawn beside each entry.
use vstd::prelude::*;

verus! {

/// What the buttons of one frame asked for: move an entry up, move an entry
/// down, remove an entry. Each is an index into the list as it stands when the
/// edit is applied, in that order.
#[derive(Clone, Copy, Debug, PartialEq, Eq)]
pub struct FileListEdits {
    pub move_up: Option<usize>,
    pub move_down: Option<usize>,
    pub remove: Option<usize>,
}

/// `s` with the entries at `i` and `j` exchanged.
pub open spec fn swapped(s: Seq<String>, i: int, j: int) -> Seq<String> {
    s.update(i, s[j]).update(j, s[i])
}

/// The buttons only exist where the edit makes sense: "up" past the first
/// entry, "down" before the last, "remove" on any entry.
pub open spec fn edits_fit(len: nat, e: FileListEdits) -> bool {
    &&& (e.move_up matches Some(i) ==> 0 < i < len)
    &&& (e.move_down matches Some(i) ==> i + 1 < len)
    &&& (e.remove matches Some(i) ==> i < len)
}

/// Whether any button was pressed.
pub open spec fn any_edit(e: FileListEdits) -> bool {
    e.move_up is Some || e.move_down is Some || e.remove is Some
}

/// The list after the move up, then the move down, then the removal.
pub open spec fn edited(s: Seq<String>, e: FileListEdits) -> Seq<String> {
    let s1 = match e.move_up {
        Some(i) => swapped(s, i as int, i - 1),
        None => s,
    };
    let s2 = match e.move_down {
        Some(i) => swapped(s1, i as int, i + 1),
        None => s1,
    };
    match e.remove {
        Some(i) => s2.remove(i as int),
        None => s2,
    }
}

/// Whether some entry of `files` reads `path`.
pub open spec fn lists(files: Seq<String>, path: Seq<char>) -> bool {
    exists|i: int| 0 <= i < files.len() && #[trigger] files[i]@ == path
}

/// Adds a freshly typeset PDF to the imposition inputs, unless it is listed
/// already; says whether it was added (and the imposition is then stale).
pub fn add_input_file(files: &mut Vec<String>, path: String) -> (added: bool)
    ensures
        added == !lists(old(files)@, path@),
        final(files)@ == (if added { old(files)@.push(path) } else { old(files)@ }),
{
    let n = files.len();
    let mut i: usize = 0;
    while i < n
        invariant
            n == files@.len(),
            i <= n,
            forall|j: int| 0 <= j < i ==> files@[j]@ != path@,
        decreases n - i,
    {
        if files[i] == path {
            return false;
        }
        i = i + 1;
    }
    files.push(path);
    true
}

/// Edits a borrowed list of file paths in place and remembers whether it did.
pub struct FileListEditor<'a> {
    files: &'a mut Vec<String>,
    changed: bool,
}

/// Exchanges the entry at `i` with the one before it.
fn swap_with_previous(files: &mut Vec<String>, i: usize)
    requires
        0 < i < old(files).len(),
    ensures
        final(files)@ == swapped(old(files)@, i as int, i - 1),
{
    let ghost s = files@;
    let x = files.remove(i);
    files.insert(i - 1, x);
    assert(files@ =~= swapped(s, i as int, i - 1));
}

/// Exchanges the entry at `i` with the one after it.
fn swap_with_next(files: &mut Vec<String>, i: usize)
    requires
        i + 1 < old(files).len(),
    ensures
        final(files)@ == swapped(old(files)@, i as int, i + 1),
{
    let ghost s = files@;
    let x = files.remove(i);
    files.insert(i + 1, x);
    assert(files@ =~= swapped(s, i as int, i + 1));
}

impl<'a> FileListEditor<'a> {
    /// The list being edited.
    pub closed spec fn target(self) -> &'a mut Vec<String> {
        self.files
    }

    /// Whether an edit has been applied through this editor.
    pub closed spec fn is_changed(self) -> bool {
        self.changed
    }

    /// An editor over `files` that has changed nothing yet; what it leaves in
    /// the list is what the caller's vector holds afterwards.
    pub fn new(files: &'a mut Vec<String>) -> (r: Self)
        ensures
            *r.target() == *old(files),
            *final(files) == *final(r.target()),
            !r.is_changed(),
    {
        FileListEditor { files, changed: false }
    }

    /// Applies the edits of one frame and says whether the list changed: an
    /// empty list has no buttons, so it takes no edit and reports no change.
    pub fn apply(self, edits: FileListEdits) -> (changed: bool)
        requires
            edits_fit(self.target()@.len(), edits),
        ensures
            final(self.target())@ == edited(self.target()@, edits),
            changed == (self.is_changed() || any_edit(edits)),
    {
        let FileListEditor { files, changed } = self;
        let mut changed = changed;
        if let Some(i) = edits.move_up {
            swap_with_previous(files, i);
            changed = true;
        }
        if let Some(i) = edits.move_down {
            swap_with_next(files, i);
            changed = true;
        }
        if let Some(i) = edits.remove {
            files.remove(i);
            changed = true;
        }
        changed
    }
}

} // verus!
