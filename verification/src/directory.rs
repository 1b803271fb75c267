//! The central directory: the records of all entries, one after another.
use crate::entry::{
    entry_bytes, entry_wf, lemma_entry_roundtrip, lemma_split, parse_directory_entry,
    parse_entry_at, write_directory_entry, DirectoryEntry, EntryModel,
};
use crate::error::{EntryError, QuartError};
use vstd::prelude::*;

verus! {

/// The values of a sequence of entries.
pub open spec fn entry_models(entries: Seq<DirectoryEntry>) -> Seq<EntryModel> {
    entries.map_values(|e: DirectoryEntry| e@)
}

/// The bytes of a directory that holds `entries`, in order.
pub open spec fn directory_bytes(entries: Seq<EntryModel>) -> Seq<u8>
    decreases entries.len(),
{
    if entries.len() == 0 {
        Seq::empty()
    } else {
        entry_bytes(entries[0]) + directory_bytes(entries.drop_first())
    }
}

/// Reading `n` entries one after another, the first at `pos`: the entries, or
/// the number of the first entry that cannot be read and why.
pub open spec fn parse_entries_at(data: Seq<u8>, pos: int, n: nat) -> Result<
    Seq<EntryModel>,
    (nat, EntryError),
>
    decreases n,
{
    if n == 0 {
        Ok(Seq::empty())
    } else {
        match parse_entry_at(data, pos) {
            (Err(e), _) => Err((0, e)),
            (Ok(first), next) => match parse_entries_at(data, next, (n - 1) as nat) {
                Ok(rest) => Ok(seq![first] + rest),
                Err((i, e)) => Err(((i + 1) as nat, e)),
            },
        }
    }
}

/// Reading the whole directory: `count` entries from its start. A failure
/// names the entry that could not be read.
pub open spec fn parse_directory_spec(data: Seq<u8>, count: u32) -> Result<
    Seq<EntryModel>,
    QuartError,
> {
    match parse_entries_at(data, 0, count as nat) {
        Ok(entries) => Ok(entries),
        Err((i, e)) => Err(QuartError::Entry(i as u32, e)),
    }
}

/// `parsed` as the continuation of entries already read.
spec fn after(done: Seq<EntryModel>, parsed: Result<Seq<EntryModel>, (nat, EntryError)>) -> Result<
    Seq<EntryModel>,
    (nat, EntryError),
> {
    match parsed {
        Ok(rest) => Ok(done + rest),
        Err((i, e)) => Err(((i + done.len()) as nat, e)),
    }
}

proof fn lemma_directory_push(entries: Seq<EntryModel>, e: EntryModel)
    ensures
        directory_bytes(entries.push(e)) == directory_bytes(entries) + entry_bytes(e),
    decreases entries.len(),
{
    if entries.len() == 0 {
        assert(entries.push(e).drop_first() =~= Seq::<EntryModel>::empty());
        assert(entries.push(e)[0] == e);
        assert(directory_bytes(Seq::<EntryModel>::empty()) == Seq::<u8>::empty());
        assert(directory_bytes(entries) == Seq::<u8>::empty());
        assert(directory_bytes(entries.push(e)) =~= entry_bytes(e));
    } else {
        assert(entries.push(e).drop_first() =~= entries.drop_first().push(e));
        lemma_directory_push(entries.drop_first(), e);
        assert(directory_bytes(entries.push(e)) =~= directory_bytes(entries) + entry_bytes(e));
    }
}

/// Writes the directory of `entries`, in order.
pub fn write_directory(entries: &Vec<DirectoryEntry>) -> (data: Vec<u8>)
    ensures
        data@ == directory_bytes(entry_models(entries@)),
{
    let mut data: Vec<u8> = Vec::new();
    let mut i: usize = 0;
    while i < entries.len()
        invariant
            i <= entries@.len(),
            data@ == directory_bytes(entry_models(entries@).take(i as int)),
        decreases entries@.len() - i,
    {
        write_directory_entry(&mut data, &entries[i]);
        proof {
            let ms = entry_models(entries@);
            assert(ms.take(i + 1) =~= ms.take(i as int).push(ms[i as int]));
            lemma_directory_push(ms.take(i as int), ms[i as int]);
        }
        i = i + 1;
    }
    assert(entry_models(entries@).take(i as int) =~= entry_models(entries@));
    data
}

/// Reads `count` entries from the start of the directory `data`.
pub fn parse_directory(data: &[u8], count: u32) -> (r: Result<Vec<DirectoryEntry>, QuartError>)
    ensures
        match r {
            Ok(entries) => parse_directory_spec(data@, count) == Ok::<Seq<EntryModel>, QuartError>(
                entry_models(entries@),
            ),
            Err(e) => parse_directory_spec(data@, count) == Err::<Seq<EntryModel>, QuartError>(e),
        },
        r matches Ok(entries) ==> entries@.len() == count,
        r matches Err(e) ==> e matches QuartError::Entry(i, _) && i < count,
{
    let mut entries: Vec<DirectoryEntry> = Vec::new();
    let mut cursor: usize = 0;
    let mut i: u32 = 0;
    while i < count
        invariant
            i <= count,
            entries@.len() == i,
            parse_entries_at(data@, 0, count as nat) == after(
                entry_models(entries@),
                parse_entries_at(data@, cursor as int, (count - i) as nat),
            ),
        decreases count - i,
    {
        let ghost before = cursor as int;
        let ghost done = entry_models(entries@);
        match parse_directory_entry(data, &mut cursor) {
            Ok(entry) => {
                proof {
                    let rest = parse_entries_at(data@, cursor as int, (count - i - 1) as nat);
                    assert(entry_models(entries@.push(entry)) =~= done.push(entry@));
                    match rest {
                        Ok(r) => {
                            assert(done + (seq![entry@] + r) =~= done.push(entry@) + r);
                        },
                        Err(_) => {},
                    }
                }
                entries.push(entry);
            },
            Err(e) => {
                proof {
                    lemma_directory_count(data@, count);
                }
                return Err(QuartError::Entry(i, e));
            },
        }
        i = i + 1;
    }
    assert(entry_models(entries@) + Seq::<EntryModel>::empty() =~= entry_models(entries@));
    proof {
        lemma_directory_count(data@, count);
    }
    Ok(entries)
}

/// Reading `n` entries gives `n` entries, or fails at one of them.
pub proof fn lemma_entries_count(data: Seq<u8>, pos: int, n: nat)
    ensures
        parse_entries_at(data, pos, n) matches Ok(es) ==> es.len() == n,
        parse_entries_at(data, pos, n) matches Err((i, _)) ==> i < n,
    decreases n,
{
    if n > 0 {
        lemma_entries_count(data, parse_entry_at(data, pos).1, (n - 1) as nat);
    }
}

/// Reading a directory of `count` entries gives `count` entries, or fails
/// at one of them, which the error names.
pub proof fn lemma_directory_count(data: Seq<u8>, count: u32)
    ensures
        parse_directory_spec(data, count) matches Ok(es) ==> es.len() == count,
        parse_directory_spec(data, count) matches Err(e) ==> e matches QuartError::Entry(i, _) && i
            < count,
{
    lemma_entries_count(data, 0, count as nat);
}

/// Reading back what `write_directory` wrote: wherever the directory of
/// well-formed entries stands in a buffer, reading that many entries there
/// gives the entries back.
pub proof fn lemma_entries_roundtrip(data: Seq<u8>, pos: int, entries: Seq<EntryModel>)
    requires
        forall|i: int| 0 <= i < entries.len() ==> entry_wf(#[trigger] entries[i]),
        0 <= pos,
        pos + directory_bytes(entries).len() <= data.len(),
        data.subrange(pos, pos + directory_bytes(entries).len()) == directory_bytes(entries),
    ensures
        parse_entries_at(data, pos, entries.len()) == Ok::<Seq<EntryModel>, (nat, EntryError)>(
            entries,
        ),
    decreases entries.len(),
{
    if entries.len() == 0 {
        assert(entries =~= Seq::<EntryModel>::empty());
    } else {
        let a = entry_bytes(entries[0]);
        let b = directory_bytes(entries.drop_first());
        lemma_split(data, pos, a, b);
        assert(entry_wf(entries[0]));
        lemma_entry_roundtrip(data, pos, entries[0]);
        assert forall|i: int| 0 <= i < entries.drop_first().len() implies entry_wf(
            #[trigger] entries.drop_first()[i],
        ) by {
            assert(entries.drop_first()[i] == entries[i + 1]);
        }
        lemma_entries_roundtrip(data, pos + a.len(), entries.drop_first());
        assert(seq![entries[0]] + entries.drop_first() =~= entries);
        assert(parse_entry_at(data, pos) == (Ok::<EntryModel, EntryError>(entries[0]), pos + a.len()));
        assert(((entries.len() - 1) as nat) == entries.drop_first().len());
    }
}

/// The directory that `write_directory` makes of well-formed entries reads
/// back, with `parse_directory`, as those entries.
pub proof fn lemma_directory_roundtrip(entries: Seq<EntryModel>)
    requires
        forall|i: int| 0 <= i < entries.len() ==> entry_wf(#[trigger] entries[i]),
        entries.len() <= u32::MAX,
    ensures
        parse_directory_spec(directory_bytes(entries), entries.len() as u32) == Ok::<
            Seq<EntryModel>,
            QuartError,
        >(entries),
{
    let d = directory_bytes(entries);
    assert(d.subrange(0, d.len() as int) =~= d);
    lemma_entries_roundtrip(d, 0, entries);
}

} // verus!
