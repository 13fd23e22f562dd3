use std::io::Cursor;
use std::io::Read;
use crate::preloader::is_separator;
use vstd::prelude::*;
use zip::result::ZipError;
use zip::ZipArchive;

verus! {

#[verifier::external_type_specification]
#[verifier::external_body]
#[verifier::reject_recursive_types(T)]
pub struct ExCursor<T>(Cursor<T>);

#[verifier::external_type_specification]
#[verifier::external_body]
#[verifier::reject_recursive_types(R)]
pub struct ExZipArchive<R>(ZipArchive<R>);

#[verifier::external_type_specification]
#[verifier::external_body]
pub struct ExZipError(ZipError);

/// The bytes that an open archive reads from.
pub uninterp spec fn archive_source(a: ZipArchive<Cursor<Vec<u8>>>) -> Seq<u8>;

/// The names of the entries of a zip archive, in the order of its central
/// directory.
pub uninterp spec fn zip_entry_names(data: Seq<u8>) -> Seq<Seq<char>>;

/// The decompressed content of each entry of a zip archive, in the same
/// order as the names.
pub uninterp spec fn zip_entry_data(data: Seq<u8>) -> Seq<Seq<u8>>;

/// Whether zip reads `data` as an archive: its central directory can be
/// found and parsed.
pub uninterp spec fn zip_opens(data: Seq<u8>) -> bool;

/// For each entry of a zip archive, in the same order as the names, whether
/// its bytes can be decompressed and checked.
pub uninterp spec fn zip_entry_decodes(data: Seq<u8>) -> Seq<bool>;

/// Relies on `ZipArchive::new` over a `Cursor`: it succeeds exactly when the
/// bytes hold a readable archive, which then reads from those bytes.
#[verifier::external_body]
fn open_archive(data: Vec<u8>) -> (r: Result<ZipArchive<Cursor<Vec<u8>>>, ZipError>)
    ensures
        r is Ok <==> zip_opens(data@),
        r is Ok ==> archive_source(r->Ok_0) == data@,
{
    ZipArchive::new(Cursor::new(data))
}

/// Relies on `ZipArchive::len`: the number of entries.
#[verifier::external_body]
fn archive_len(a: &ZipArchive<Cursor<Vec<u8>>>) -> (r: usize)
    ensures
        r == zip_entry_names(archive_source(*a)).len(),
{
    a.len()
}

/// Relies on `ZipArchive::name_for_index`: the stored name of entry `i`,
/// read from the central directory without decompressing anything.
#[verifier::external_body]
fn entry_name(a: &ZipArchive<Cursor<Vec<u8>>>, i: usize) -> (r: Option<String>)
    ensures
        i < zip_entry_names(archive_source(*a)).len() ==> r is Some && r->Some_0@ == zip_entry_names(
            archive_source(*a),
        )[i as int],
{
    a.name_for_index(i).map(|s| s.to_string())
}

/// Relies on `ZipArchive::by_index` and on reading the entry it gives to its
/// end: the decompressed bytes of entry `i`. The archive still reads from
/// the same bytes afterwards.
#[verifier::external_body]
fn entry_content(a: &mut ZipArchive<Cursor<Vec<u8>>>, i: usize) -> (r: Result<Vec<u8>, ZipError>)
    ensures
        archive_source(*final(a)) == archive_source(*old(a)),
        r is Ok <==> (i < zip_entry_names(archive_source(*old(a))).len() && zip_entry_decodes(
            archive_source(*old(a)),
        )[i as int]),
        r is Ok ==> r->Ok_0@ == zip_entry_data(archive_source(*old(a)))[i as int],
{
    let mut entry = a.by_index(i)?;
    let mut buffer = Vec::new();
    entry.read_to_end(&mut buffer)?;
    Ok(buffer)
}

/// One entry taken out of an archive: its stored name, whether it is a
/// directory, and its bytes (none for a directory).
#[derive(Debug)]
pub struct ExtractedEntry {
    pub name: String,
    pub is_dir: bool,
    pub content: Vec<u8>,
}

/// Why extraction failed: the archive could not be read, or one entry could
/// not be decompressed.
#[derive(Debug)]
pub enum ExtractError {
    Unreadable,
    BadEntry(String),
}

/// `s` starts with `prefix`.
pub open spec fn has_prefix(s: Seq<char>, prefix: Seq<char>) -> bool {
    prefix.len() <= s.len() && s.subrange(0, prefix.len() as int) == prefix
}

/// The depth below the destination after one component `comp` of a stored
/// name is taken at depth `depth`: `..` goes up one, an empty component or
/// `.` stays, any other goes down one. `None` when `..` would go above the
/// destination.
pub open spec fn depth_after(depth: nat, comp: Seq<char>) -> Option<nat> {
    if comp == seq!['.', '.'] {
        if depth == 0 {
            None
        } else {
            Some((depth - 1) as nat)
        }
    } else if comp.len() == 0 || comp == seq!['.'] {
        Some(depth)
    } else {
        Some(depth + 1)
    }
}

/// Walks `rest`, the unread part of a stored name, from depth `depth`, with
/// `comp` the part of the current component read so far: the final depth,
/// or `None` once some `..` goes above the destination.
pub open spec fn walk_depth(rest: Seq<char>, depth: nat, comp: Seq<char>) -> Option<nat>
    decreases rest.len(),
{
    if rest.len() == 0 {
        depth_after(depth, comp)
    } else if is_separator(rest[0]) {
        match depth_after(depth, comp) {
            None => None,
            Some(d) => walk_depth(rest.drop_first(), d, seq![]),
        }
    } else {
        walk_depth(rest.drop_first(), depth, comp.push(rest[0]))
    }
}

/// A stored name stays below the directory it is written into: it does not
/// start with a separator or a drive prefix (`C:`), and no `..` component
/// climbs above the directory.
pub open spec fn stays_below(name: Seq<char>) -> bool {
    &&& !(name.len() > 0 && is_separator(name[0]))
    &&& !(name.len() >= 2 && name[1] == ':')
    &&& walk_depth(name, 0, seq![]) is Some
}

/// An entry is taken by extraction under `prefix`: its name starts with the
/// prefix and stays below the destination.
pub open spec fn is_extracted(name: Seq<char>, prefix: Seq<char>) -> bool {
    has_prefix(name, prefix) && stays_below(name)
}

/// A stored name marks a directory when it ends in a separator.
pub open spec fn names_directory(name: Seq<char>) -> bool {
    name.len() > 0 && (name.last() == '/' || name.last() == '\\')
}

/// What extraction under `prefix` takes from entries `names` / `data`: each
/// entry whose name starts with `prefix` and stays below the destination, in order, as (name, is directory,
/// bytes), with no bytes for a directory.
pub open spec fn subtree_entries(names: Seq<Seq<char>>, data: Seq<Seq<u8>>, prefix: Seq<char>) -> Seq<
    (Seq<char>, bool, Seq<u8>),
>
    decreases names.len(),
{
    if names.len() == 0 {
        seq![]
    } else {
        let rest = subtree_entries(names.drop_last(), data, prefix);
        let i = names.len() - 1;
        let name = names[i];
        if is_extracted(name, prefix) {
            rest.push(
                (name, names_directory(name), if names_directory(name) { seq![] } else { data[i] }),
            )
        } else {
            rest
        }
    }
}

/// Extraction under a prefix keeps exactly the entries whose names start
/// with it and stay below the destination: every entry taken does both, and
/// every entry of the archive that does both is taken.
pub proof fn lemma_subtree_is_prefixed_entries(names: Seq<Seq<char>>, data: Seq<Seq<u8>>, prefix: Seq<char>)
    ensures
        forall|j: int|
            0 <= j < subtree_entries(names, data, prefix).len() ==> is_extracted(
                (#[trigger] subtree_entries(names, data, prefix)[j]).0,
                prefix,
            ),
        forall|i: int|
            0 <= i < names.len() && is_extracted(#[trigger] names[i], prefix) ==> exists|j: int|
                0 <= j < subtree_entries(names, data, prefix).len() && (#[trigger] subtree_entries(
                    names,
                    data,
                    prefix,
                )[j]).0 == names[i],
    decreases names.len(),
{
    if names.len() > 0 {
        let p = names.drop_last();
        lemma_subtree_is_prefixed_entries(p, data, prefix);
        let rest = subtree_entries(p, data, prefix);
        let all = subtree_entries(names, data, prefix);
        assert forall|j: int| 0 <= j < all.len() implies is_extracted((#[trigger] all[j]).0, prefix) by {
            if j < rest.len() {
                assert(all[j] == rest[j]);
            }
        }
        assert forall|i: int| 0 <= i < names.len() && is_extracted(#[trigger] names[i], prefix) implies exists|j: int|
            0 <= j < all.len() && (#[trigger] all[j]).0 == names[i] by {
            if i < names.len() - 1 {
                assert(p[i] == names[i]);
                let j = choose|j: int| 0 <= j < rest.len() && (#[trigger] rest[j]).0 == p[i];
                assert(all[j] == rest[j]);
            } else {
                assert(all[all.len() - 1].0 == names[i]);
            }
        }
    }
}

/// The views of extracted entries.
pub open spec fn entries_view(es: Seq<ExtractedEntry>) -> Seq<(Seq<char>, bool, Seq<u8>)> {
    es.map_values(|e: ExtractedEntry| (e.name@, e.is_dir, e.content@))
}

/// Whether `name` starts with `prefix`.
pub fn in_subtree(name: &str, prefix: &str) -> (r: bool)
    ensures
        r == has_prefix(name@, prefix@),
{
    let n = name.unicode_len();
    let m = prefix.unicode_len();
    if m > n {
        return false;
    }
    let mut k: usize = 0;
    while k < m
        invariant
            n == name@.len(),
            m == prefix@.len(),
            m <= n,
            k <= m,
            forall|j: int| 0 <= j < k ==> name@[j] == prefix@[j],
        decreases m - k,
    {
        if name.get_char(k) != prefix.get_char(k) {
            assert(name@.subrange(0, m as int)[k as int] == name@[k as int]);
            return false;
        }
        k = k + 1;
    }
    assert(name@.subrange(0, m as int) =~= prefix@);
    true
}

/// The depth after the component `name[start..end]`, taken at `depth`.
fn depth_after_component(name: &str, start: usize, end: usize, depth: usize) -> (r: Option<usize>)
    requires
        start <= end <= name@.len(),
        depth <= start,
    ensures
        match depth_after(depth as nat, name@.subrange(start as int, end as int)) {
            None => r is None,
            Some(d) => r == Some(d as usize) && d <= end,
        },
{
    let ghost comp = name@.subrange(start as int, end as int);
    let len = end - start;
    if len == 2 && name.get_char(start) == '.' && name.get_char(start + 1) == '.' {
        assert(comp =~= seq!['.', '.']);
        if depth == 0 {
            None
        } else {
            Some(depth - 1)
        }
    } else if len == 0 || (len == 1 && name.get_char(start) == '.') {
        if len == 1 {
            assert(comp =~= seq!['.']);
        } else {
            assert(comp =~= Seq::<char>::empty());
        }
        proof {
            if len == 0 {
                assert(comp != seq!['.', '.']);
            }
        }
        Some(depth)
    } else {
        proof {
            if len == 2 {
                assert(comp[0] == name@[start as int] && comp[1] == name@[start + 1]);
            }
            if len == 1 {
                assert(comp[0] == name@[start as int]);
            }
            assert(comp.len() == len);
        }
        Some(depth + 1)
    }
}

/// Whether the stored name `name` stays below the directory it is written
/// into.
pub fn stays_below_dir(name: &str) -> (r: bool)
    ensures
        r == stays_below(name@),
{
    let n = name.unicode_len();
    if n > 0 {
        let c0 = name.get_char(0);
        if c0 == '/' || c0 == '\\' {
            return false;
        }
    }
    if n >= 2 && name.get_char(1) == ':' {
        return false;
    }
    let mut depth: usize = 0;
    let mut start: usize = 0;
    let mut i: usize = 0;
    assert(name@.subrange(0, n as int) == name@);
    assert(name@.subrange(0, 0) =~= Seq::<char>::empty());
    while i < n
        invariant
            n == name@.len(),
            start <= i <= n,
            depth <= start,
            !(n > 0 && is_separator(name@[0])),
            !(n >= 2 && name@[1] == ':'),
            walk_depth(name@, 0, seq![]) == walk_depth(
                name@.subrange(i as int, n as int),
                depth as nat,
                name@.subrange(start as int, i as int),
            ),
        decreases n - i,
    {
        let c = name.get_char(i);
        let ghost rest = name@.subrange(i as int, n as int);
        assert(rest[0] == c);
        assert(rest.drop_first() == name@.subrange(i + 1, n as int));
        if c == '/' || c == '\\' {
            match depth_after_component(name, start, i, depth) {
                None => return false,
                Some(d) => {
                    depth = d;
                    start = i + 1;
                    assert(name@.subrange(start as int, start as int) =~= Seq::<char>::empty());
                },
            }
        } else {
            assert(name@.subrange(start as int, i + 1) == name@.subrange(start as int, i as int).push(c));
        }
        i = i + 1;
    }
    assert(name@.subrange(n as int, n as int).len() == 0);
    match depth_after_component(name, start, n, depth) {
        None => false,
        Some(_) => true,
    }
}

/// Whether a stored entry name marks a directory: it ends in `/` or `\`.
pub fn is_directory_name(name: &str) -> (r: bool)
    ensures
        r == names_directory(name@),
{
    let n = name.unicode_len();
    if n == 0 {
        return false;
    }
    let c = name.get_char(n - 1);
    c == '/' || c == '\\'
}

/// Takes out of the zip archive held in `data` every entry whose stored name
/// starts with `prefix` and stays below the destination, in the archive's
/// order; the other entries are only looked at by name. It fails with
/// `Unreadable` exactly when zip cannot read the archive, and with
/// `BadEntry` on a taken file entry that cannot be decompressed; otherwise it
/// succeeds.
pub fn extract_subtree(data: Vec<u8>, prefix: &str) -> (r: Result<Vec<ExtractedEntry>, ExtractError>)
    ensures
        r is Ok ==> entries_view(r->Ok_0@) == subtree_entries(zip_entry_names(data@), zip_entry_data(data@), prefix@),
        (r matches Err(ExtractError::Unreadable)) <==> !zip_opens(data@),
        r matches Err(ExtractError::BadEntry(n)) ==> exists|i: int|
            0 <= i < zip_entry_names(data@).len() && #[trigger] zip_entry_names(data@)[i] == n@ && is_extracted(
                n@,
                prefix@,
            ) && !names_directory(n@) && !zip_entry_decodes(data@)[i],
        zip_opens(data@) && (forall|i: int|
            0 <= i < zip_entry_names(data@).len() && is_extracted(#[trigger] zip_entry_names(data@)[i], prefix@)
                && !names_directory(zip_entry_names(data@)[i]) ==> zip_entry_decodes(data@)[i]) ==> r is Ok,
{
    let ghost source = data@;
    let mut archive = match open_archive(data) {
        Ok(a) => a,
        Err(_) => return Err(ExtractError::Unreadable),
    };
    let n = archive_len(&archive);
    let ghost names = zip_entry_names(source);
    let ghost contents = zip_entry_data(source);
    let mut out: Vec<ExtractedEntry> = Vec::new();
    let mut i: usize = 0;
    while i < n
        invariant
            archive_source(archive) == source,
            source == data@,
            zip_opens(source),
            names == zip_entry_names(source),
            contents == zip_entry_data(source),
            n == names.len(),
            i <= n,
            entries_view(out@) == subtree_entries(names.take(i as int), contents, prefix@),
        decreases n - i,
    {
        assert(names.take(i + 1).drop_last() == names.take(i as int));
        let name = match entry_name(&archive, i) {
            Some(s) => s,
            None => return Err(ExtractError::Unreadable),
        };
        if in_subtree(name.as_str(), prefix) && stays_below_dir(name.as_str()) {
            let is_dir = is_directory_name(name.as_str());
            let content = if is_dir {
                Vec::new()
            } else {
                match entry_content(&mut archive, i) {
                    Ok(bytes) => bytes,
                    Err(_) => {
                        assert(names[i as int] == name@);
                        assert(0 <= i < zip_entry_names(data@).len() && zip_entry_names(data@)[i as int] == name@
                            && is_extracted(name@, prefix@) && !names_directory(name@) && !zip_entry_decodes(
                            data@,
                        )[i as int]);
                        return Err(ExtractError::BadEntry(name));
                    },
                }
            };
            proof {
                if is_dir {
                    assert(content@ =~= Seq::<u8>::empty());
                }
            }
            let ghost before = out@;
            out.push(ExtractedEntry { name, is_dir, content });
            assert(entries_view(out@) =~= entries_view(before).push((names[i as int], is_dir, content@)));
        }
        i = i + 1;
    }
    assert(names.take(n as int) == names);
    Ok(out)
}

} // verus!
