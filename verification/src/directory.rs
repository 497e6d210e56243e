//! The metadata ledger entries: one `MasterDirectoryChild` per stored
//! object, holding one `MasterDirectoryChildPart` per chunk. The parts list
//! grows by an idempotent, order-independent append keyed on the part id,
//! so that retried appends and racing chunk completions never duplicate an
//! entry.

use crate::errors::DriveError;
use vstd::prelude::*;
use vstd::string::StringExecFns;

verus! {

/// One recorded chunk: its object, its deterministic id, its position in
/// the byte stream, and the location reference handed back by the endpoint
/// that holds its bytes.
#[derive(Clone, Debug)]
pub struct MasterDirectoryChildPart {
    pub name: String,
    pub id: String,
    pub part: i32,
    pub parent: String,
    pub url: String,
}

/// The mathematical value of a part: its strings as character sequences
/// and its index as an integer.
pub ghost struct PartView {
    pub name: Seq<char>,
    pub id: Seq<char>,
    pub part: int,
    pub parent: Seq<char>,
    pub url: Seq<char>,
}

impl View for MasterDirectoryChildPart {
    type V = PartView;

    open spec fn view(&self) -> PartView {
        PartView {
            name: self.name@,
            id: self.id@,
            part: self.part as int,
            parent: self.parent@,
            url: self.url@,
        }
    }
}

/// The views of a vector of parts.
pub open spec fn part_views(parts: Seq<MasterDirectoryChildPart>) -> Seq<PartView> {
    parts.map_values(|p: MasterDirectoryChildPart| p@)
}

/// Whether some part in the list carries the given id.
pub open spec fn spec_has_id(parts: Seq<PartView>, id: Seq<char>) -> bool {
    exists|i: int| 0 <= i < parts.len() && parts[i].id == id
}

/// How many parts in the list carry the given id.
pub open spec fn spec_count_id(parts: Seq<PartView>, id: Seq<char>) -> int
    decreases parts.len(),
{
    if parts.len() == 0 {
        0
    } else {
        spec_count_id(parts.drop_last(), id) + if parts.last().id == id {
            1int
        } else {
            0int
        }
    }
}

/// The idempotent merge: the list unchanged if the id is already present,
/// else the part appended at the end.
pub open spec fn spec_append_if_absent(parts: Seq<PartView>, p: PartView) -> Seq<PartView> {
    if spec_has_id(parts, p.id) {
        parts
    } else {
        parts.push(p)
    }
}

/// A list holds an id exactly when at least one part counts toward it.
proof fn lemma_count_id_has(parts: Seq<PartView>, id: Seq<char>)
    ensures
        spec_has_id(parts, id) <==> spec_count_id(parts, id) > 0,
        spec_count_id(parts, id) >= 0,
    decreases parts.len(),
{
    if parts.len() > 0 {
        lemma_count_id_has(parts.drop_last(), id);
        if spec_has_id(parts, id) && parts.last().id != id {
            let i = choose|i: int| 0 <= i < parts.len() && parts[i].id == id;
            assert(parts.drop_last()[i] == parts[i]);
        }
        if spec_has_id(parts.drop_last(), id) {
            let i = choose|i: int| 0 <= i < parts.drop_last().len() && parts.drop_last()[i].id
                == id;
            assert(parts[i].id == id);
        }
    }
}

/// Idempotent ledger append law: appending a part a second time changes
/// nothing — the merge keyed on id absorbs repeats, whatever order racing
/// appends commit in.
pub proof fn lemma_append_idempotent(parts: Seq<PartView>, p: PartView)
    ensures
        spec_append_if_absent(spec_append_if_absent(parts, p), p) == spec_append_if_absent(
            parts,
            p,
        ),
{
    if !spec_has_id(parts, p.id) {
        let once = parts.push(p);
        assert(once[parts.len() as int].id == p.id);
        assert(spec_has_id(once, p.id));
    }
}

/// Idempotent ledger append law, counted: a part appended to a list that
/// does not yet hold its id ends up recorded exactly once, and appending it
/// again still leaves exactly one part with that id.
pub proof fn lemma_append_exactly_once(parts: Seq<PartView>, p: PartView)
    requires
        !spec_has_id(parts, p.id),
    ensures
        spec_count_id(spec_append_if_absent(parts, p), p.id) == 1,
        spec_count_id(
            spec_append_if_absent(spec_append_if_absent(parts, p), p),
            p.id,
        ) == 1,
{
    lemma_count_id_has(parts, p.id);
    let once = parts.push(p);
    assert(once.drop_last() =~= parts);
    assert(spec_count_id(once, p.id) == 1);
    lemma_append_idempotent(parts, p);
}

/// One ledger entry: an object name and the parts recorded for it so far,
/// in insertion order.
#[derive(Clone, Debug)]
pub struct MasterDirectoryChild {
    pub name: String,
    pub parts: Vec<MasterDirectoryChildPart>,
}

impl MasterDirectoryChild {
    /// The fresh entry created before any chunk of the object is
    /// dispatched: the name with an empty parts list.
    pub fn new(name: String) -> (e: Self)
        ensures
            e.name@ == name@,
            e.parts@.len() == 0,
    {
        MasterDirectoryChild { name, parts: Vec::new() }
    }

    /// Appends `part` unless a part with the same id is already recorded:
    /// the idempotent, order-independent merge that racing chunk
    /// completions and retried appends go through.
    pub fn append_part_if_absent(&mut self, part: MasterDirectoryChildPart)
        ensures
            final(self).name@ == old(self).name@,
            part_views(final(self).parts@) == spec_append_if_absent(
                part_views(old(self).parts@),
                part@,
            ),
    {
        let n = self.parts.len();
        let mut i: usize = 0;
        while i < n
            invariant
                n == self.parts@.len(),
                i <= n,
                forall|j: int| 0 <= j < i ==> part_views(self.parts@)[j].id != part@.id,
            decreases n - i,
        {
            if self.parts[i].id == part.id {
                proof {
                    assert(part_views(self.parts@)[i as int].id == part@.id);
                    assert(spec_has_id(part_views(self.parts@), part@.id));
                }
                return ;
            }
            i = i + 1;
        }
        proof {
            assert(!spec_has_id(part_views(self.parts@), part@.id));
        }
        self.parts.push(part);
        proof {
            assert(part_views(self.parts@) =~= spec_append_if_absent(
                part_views(old(self).parts@),
                part@,
            ));
        }
    }
}

/// The character a decimal digit prints as.
pub open spec fn spec_digit_char(d: nat) -> char
    recommends
        d < 10,
{
    if d == 0 {
        '0'
    } else if d == 1 {
        '1'
    } else if d == 2 {
        '2'
    } else if d == 3 {
        '3'
    } else if d == 4 {
        '4'
    } else if d == 5 {
        '5'
    } else if d == 6 {
        '6'
    } else if d == 7 {
        '7'
    } else if d == 8 {
        '8'
    } else {
        '9'
    }
}

/// The decimal digits of `n`, most significant first, with no leading
/// zeros (a single `'0'` for zero).
pub open spec fn spec_dec_digits(n: nat) -> Seq<char>
    decreases n,
{
    if n < 10 {
        seq![spec_digit_char(n)]
    } else {
        spec_dec_digits(n / 10).push(spec_digit_char(n % 10))
    }
}

/// The deterministic id of chunk `index` of object `name`:
/// the name, a dot, and the index in decimal.
pub open spec fn spec_part_id(name: Seq<char>, index: nat) -> Seq<char> {
    name + seq!['.'] + spec_dec_digits(index)
}

/// The one-character string of a decimal digit.
fn digit_str(d: usize) -> (s: &'static str)
    requires
        d < 10,
    ensures
        s@ == seq![spec_digit_char(d as nat)],
{
    proof {
        reveal_strlit("0");
        reveal_strlit("1");
        reveal_strlit("2");
        reveal_strlit("3");
        reveal_strlit("4");
        reveal_strlit("5");
        reveal_strlit("6");
        reveal_strlit("7");
        reveal_strlit("8");
        reveal_strlit("9");
    }
    let s = if d == 0 {
        "0"
    } else if d == 1 {
        "1"
    } else if d == 2 {
        "2"
    } else if d == 3 {
        "3"
    } else if d == 4 {
        "4"
    } else if d == 5 {
        "5"
    } else if d == 6 {
        "6"
    } else if d == 7 {
        "7"
    } else if d == 8 {
        "8"
    } else {
        "9"
    };
    proof {
        assert(s@ =~= seq![spec_digit_char(d as nat)]);
    }
    s
}

/// `index` in decimal.
pub fn index_string(index: usize) -> (s: String)
    ensures
        s@ == spec_dec_digits(index as nat),
    decreases index,
{
    let d = digit_str(index % 10);
    if index < 10 {
        d.to_owned()
    } else {
        let mut s = index_string(index / 10);
        s.append(d);
        s
    }
}

/// The id chunk `index` of object `name` is uploaded and recorded under.
pub fn part_id(name: &str, index: usize) -> (s: String)
    ensures
        s@ == spec_part_id(name@, index as nat),
{
    let mut s = name.to_owned();
    s.append(".");
    let num = index_string(index);
    s.append(num.as_str());
    proof {
        reveal_strlit(".");
        assert(s@ =~= spec_part_id(name@, index as nat));
    }
    s
}

impl MasterDirectoryChildPart {
    /// The descriptor of chunk `index` of object `name`, once the endpoint
    /// has answered with `url` as the chunk's location reference.
    pub fn new(name: &str, index: usize, url: String) -> (p: Self)
        requires
            index <= i32::MAX,
        ensures
            p@.name == name@,
            p@.id == spec_part_id(name@, index as nat),
            p@.part == index as int,
            p@.parent == name@,
            p@.url == url@,
    {
        MasterDirectoryChildPart {
            name: name.to_owned(),
            id: part_id(name, index),
            part: index as i32,
            parent: name.to_owned(),
            url,
        }
    }
}

/// Turns an endpoint's answer for chunk `index` of `name` into the
/// descriptor to record, or a per-chunk transport failure: the descriptor
/// exactly when the endpoint handed back a location reference.
pub fn record_upload(name: &str, index: usize, location: Option<String>) -> (r: Result<
    MasterDirectoryChildPart,
    DriveError,
>)
    requires
        index <= i32::MAX,
    ensures
        match r {
            Ok(p) => {
                &&& location matches Some(url) && p@.url == url@
                &&& p@.name == name@
                &&& p@.id == spec_part_id(name@, index as nat)
                &&& p@.part == index as int
                &&& p@.parent == name@
            },
            Err(err) => location is None && err == DriveError::TransportError,
        },
{
    match location {
        Some(url) => Ok(MasterDirectoryChildPart::new(name, index, url)),
        None => Err(DriveError::TransportError),
    }
}

/// The create-only gate of a store operation: a fresh, empty ledger entry
/// for `name` when none is recorded yet, and `LedgerConflict` when one is —
/// storing over an existing object name is refused before any chunk work.
pub fn create_entry_result(existing: Option<MasterDirectoryChild>, name: String) -> (r: Result<
    MasterDirectoryChild,
    DriveError,
>)
    ensures
        match r {
            Ok(e) => {
                &&& existing is None
                &&& e.name@ == name@
                &&& e.parts@.len() == 0
            },
            Err(err) => existing is Some && err == DriveError::LedgerConflict,
        },
{
    match existing {
        Some(_) => Err(DriveError::LedgerConflict),
        None => Ok(MasterDirectoryChild::new(name)),
    }
}

} // verus!
