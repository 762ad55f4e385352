use vstd::prelude::*;
use crate::progress::Snapshot;
use crate::units::{byte_unit_text, decimal, decimal_string, print_byte_unit};

verus! {

/// Each identifier in decimal, followed by a space.
pub open spec fn ids_text(ids: Seq<usize>) -> Seq<char>
    decreases ids.len(),
{
    if ids.len() == 0 {
        Seq::empty()
    } else {
        ids_text(ids.drop_last()) + decimal(ids.last() as nat) + " "@
    }
}

/// The status line of a multi-part transfer.
pub open spec fn progress_text(sum_position: nat, sum_total: nat, active: Seq<usize>) -> Seq<char> {
    "["@ + byte_unit_text(sum_position) + "/"@ + byte_unit_text(sum_total) + "] "@ + ids_text(
        active,
    ) + "\n"@
}

/// The status line of one named file.
pub open spec fn file_progress_text(name: Seq<char>, position: nat, total: nat) -> Seq<char> {
    "["@ + byte_unit_text(position) + "/"@ + byte_unit_text(total) + "] "@ + name + "\n"@
}

/// Renders a snapshot as `[done/total] id id ... ` and a line end.
pub fn progress_line(snapshot: &Snapshot) -> (r: String)
    ensures
        r@ == progress_text(
            snapshot.sum_position as nat,
            snapshot.sum_total as nat,
            snapshot.active_parts@,
        ),
{
    let ids = &snapshot.active_parts;
    let mut list = String::new();
    let mut i: usize = 0;
    while i < ids.len()
        invariant
            i <= ids@.len(),
            list@ == ids_text(ids@.take(i as int)),
        decreases ids@.len() - i,
    {
        let n = decimal_string(ids[i] as u128);
        list.append(n.as_str());
        list.append(" ");
        proof {
            assert(ids@.take(i + 1).drop_last() =~= ids@.take(i as int));
        }
        i = i + 1;
    }
    proof {
        assert(ids@.take(ids@.len() as int) =~= ids@);
    }
    let mut s = String::from_str("[");
    s.append(print_byte_unit(snapshot.sum_position).as_str());
    s.append("/");
    s.append(print_byte_unit(snapshot.sum_total).as_str());
    s.append("] ");
    s.append(list.as_str());
    s.append("\n");
    proof {
        assert(s@ =~= progress_text(
            snapshot.sum_position as nat,
            snapshot.sum_total as nat,
            snapshot.active_parts@,
        ));
    }
    s
}

/// Renders the progress of one file as `[done/total] name` and a line end.
pub fn file_progress_line(name: &str, position: usize, total: usize) -> (r: String)
    ensures
        r@ == file_progress_text(name@, position as nat, total as nat),
{
    let mut s = String::from_str("[");
    s.append(print_byte_unit(position as u128).as_str());
    s.append("/");
    s.append(print_byte_unit(total as u128).as_str());
    s.append("] ");
    s.append(name);
    s.append("\n");
    proof {
        assert(s@ =~= file_progress_text(name@, position as nat, total as nat));
    }
    s
}

/// Which file a directory transfer last reported on, so that each file's
/// progress gets a line of its own.
pub struct FileLineTracker {
    current: String,
}

impl View for FileLineTracker {
    type V = Seq<char>;

    closed spec fn view(&self) -> Seq<char> {
        self.current@
    }
}

impl FileLineTracker {
    /// No file reported yet.
    pub fn new() -> (r: FileLineTracker)
        ensures
            r@ == Seq::<char>::empty(),
    {
        FileLineTracker { current: String::new() }
    }

    /// Notes a report on file `name`; true when it is not the file reported
    /// on before, that is when a new line must be started.
    pub fn switch_to(&mut self, name: &str) -> (r: bool)
        ensures
            r == (name@ != old(self)@),
            final(self)@ == name@,
    {
        let next = String::from_str(name);
        let changed = !(next == self.current);
        self.current = next;
        changed
    }
}

} // verus!
