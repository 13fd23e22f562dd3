use dashmap::DashMap;
use vstd::prelude::*;

verus! {

#[verifier::external_type_specification]
#[verifier::external_body]
#[verifier::reject_recursive_types(K)]
#[verifier::reject_recursive_types(V)]
#[verifier::reject_recursive_types(S)]
pub struct ExDashMap<K, V, S>(DashMap<K, V, S>);

/// What a byte cache holds: logical path to file content.
pub uninterp spec fn cache_contents(m: DashMap<String, Vec<u8>>) -> Map<Seq<char>, Seq<u8>>;

/// The cache with no entries.
pub open spec fn empty_cache() -> Map<Seq<char>, Seq<u8>> {
    Map::empty()
}

/// Relies on `DashMap::with_capacity`: a new map holds nothing.
#[verifier::external_body]
fn map_with_capacity(capacity: usize) -> (r: DashMap<String, Vec<u8>>)
    ensures
        cache_contents(r) == empty_cache(),
{
    DashMap::with_capacity(capacity)
}

/// Relies on `DashMap::insert`: the key maps to the value afterwards, the
/// other keys are untouched.
#[verifier::external_body]
fn map_insert(m: &mut DashMap<String, Vec<u8>>, key: String, value: Vec<u8>)
    ensures
        cache_contents(*final(m)) == cache_contents(*old(m)).insert(key@, value@),
{
    m.insert(key, value);
}

/// Relies on `DashMap::get`: the value stored under the key, cloned.
#[verifier::external_body]
fn map_get(m: &DashMap<String, Vec<u8>>, key: &str) -> (r: Option<Vec<u8>>)
    ensures
        match r {
            Some(v) => cache_contents(*m).contains_key(key@) && v@ == cache_contents(*m)[key@],
            None => !cache_contents(*m).contains_key(key@),
        },
{
    m.get(key).map(|entry| entry.value().clone())
}

/// Relies on `DashMap::len`: the number of keys held.
#[verifier::external_body]
fn map_len(m: &DashMap<String, Vec<u8>>) -> (r: usize)
    ensures
        r == cache_contents(*m).dom().len(),
{
    m.len()
}

/// Relies on `DashMap::clear`: nothing is held afterwards.
#[verifier::external_body]
fn map_clear(m: &mut DashMap<String, Vec<u8>>)
    ensures
        cache_contents(*final(m)) == empty_cache(),
{
    m.clear()
}

/// Relies on `String::push`: the character is appended at the end.
#[verifier::external_body]
fn push_char(s: &mut String, c: char)
    ensures
        final(s)@ == old(s)@.push(c),
{
    s.push(c)
}

/// Whether `c` separates path components on some host: `/` or `\`.
pub open spec fn is_separator(c: char) -> bool {
    c == '/' || c == '\\'
}

/// `c` with an upper-case ASCII letter taken to its lower-case form, as a
/// code point.
pub open spec fn ascii_lower(c: char) -> u32 {
    if 'A' <= c && c <= 'Z' {
        ((c as u32) + 32) as u32
    } else {
        c as u32
    }
}

/// `s` equals the lower-case ASCII word `w` when case is ignored.
pub open spec fn equals_ignoring_case(s: Seq<char>, w: Seq<char>) -> bool {
    s.len() == w.len() && forall|i: int| 0 <= i < s.len() ==> ascii_lower(#[trigger] s[i]) == w[i] as u32
}

/// The extensions of the image formats that the cache takes.
pub open spec fn is_image_extension(e: Seq<char>) -> bool {
    equals_ignoring_case(e, seq!['p', 'n', 'g'])
    || equals_ignoring_case(e, seq!['j', 'p', 'g'])
    || equals_ignoring_case(e, seq!['j', 'p', 'e', 'g'])
    || equals_ignoring_case(e, seq!['g', 'i', 'f'])
    || equals_ignoring_case(e, seq!['w', 'e', 'b', 'p'])
}

/// `i` is the position of the dot that starts the extension of the last
/// component of `p`: the last dot of that component, not its first character.
pub open spec fn is_extension_dot(p: Seq<char>, i: int) -> bool {
    &&& 0 < i < p.len()
    &&& p[i] == '.'
    &&& !is_separator(p[i - 1])
    &&& forall|j: int| i < j < p.len() ==> #[trigger] p[j] != '.' && !is_separator(p[j])
}

/// The last component of path `p` has one of the image extensions.
pub open spec fn is_image_path(p: Seq<char>) -> bool {
    exists|i: int| is_extension_dot(p, i) && is_image_extension(#[trigger] p.subrange(i + 1, p.len() as int))
}

/// `p` with every `\` turned into `/`.
pub open spec fn normalized(p: Seq<char>) -> Seq<char> {
    p.map_values(|c: char| if c == '\\' { '/' } else { c })
}

fn ascii_lower_exec(c: char) -> (r: u32)
    ensures
        r == ascii_lower(c),
{
    if 'A' <= c && c <= 'Z' {
        (c as u32) + 32
    } else {
        c as u32
    }
}

fn range_equals_ignoring_case(p: &str, start: usize, w: &[char]) -> (r: bool)
    requires
        start <= p@.len(),
    ensures
        r == equals_ignoring_case(p@.subrange(start as int, p@.len() as int), w@),
{
    let n = p.unicode_len();
    if n - start != w.len() {
        return false;
    }
    let mut k: usize = 0;
    while k < w.len()
        invariant
            start + w@.len() == n,
            n == p@.len(),
            k <= w@.len(),
            forall|i: int| 0 <= i < k ==> ascii_lower(p@[start + i]) == w@[i] as u32,
        decreases w@.len() - k,
    {
        if ascii_lower_exec(p.get_char(start + k)) != w[k] as u32 {
            assert(p@.subrange(start as int, p@.len() as int)[k as int] == p@[start + k]);
            return false;
        }
        k = k + 1;
    }
    proof {
        assert forall|i: int| 0 <= i < w@.len() implies ascii_lower(p@.subrange(start as int, p@.len() as int)[i]) == w@[i] as u32 by {
            assert(p@.subrange(start as int, p@.len() as int)[i] == p@[start + i]);
        }
    }
    true
}

fn extension_is_image(p: &str, start: usize) -> (r: bool)
    requires
        start <= p@.len(),
    ensures
        r == is_image_extension(p@.subrange(start as int, p@.len() as int)),
{
    let png = ['p', 'n', 'g'];
    let jpg = ['j', 'p', 'g'];
    let jpeg = ['j', 'p', 'e', 'g'];
    let gif = ['g', 'i', 'f'];
    let webp = ['w', 'e', 'b', 'p'];
    assert(png@ == seq!['p', 'n', 'g']);
    assert(jpg@ == seq!['j', 'p', 'g']);
    assert(jpeg@ == seq!['j', 'p', 'e', 'g']);
    assert(gif@ == seq!['g', 'i', 'f']);
    assert(webp@ == seq!['w', 'e', 'b', 'p']);
    range_equals_ignoring_case(p, start, &png) || range_equals_ignoring_case(p, start, &jpg)
        || range_equals_ignoring_case(p, start, &jpeg) || range_equals_ignoring_case(p, start, &gif)
        || range_equals_ignoring_case(p, start, &webp)
}

/// Where the extension of the last component of `path` starts, just after
/// its dot; `None` when that component has no extension.
pub fn extension_start(path: &str) -> (r: Option<usize>)
    ensures
        match r {
            Some(s) => s >= 1 && is_extension_dot(path@, s - 1),
            None => forall|d: int| !is_extension_dot(path@, d),
        },
{
    let n = path.unicode_len();
    let mut i: usize = n;
    while i > 0
        invariant
            n == path@.len(),
            i <= n,
            forall|j: int| i <= j < n ==> #[trigger] path@[j] != '.' && !is_separator(path@[j]),
        decreases i,
    {
        let c = path.get_char(i - 1);
        if c == '/' || c == '\\' {
            assert forall|d: int| !is_extension_dot(path@, d) by {
                if is_extension_dot(path@, d) && d < i - 1 {
                    assert(path@[i - 1] != '.' && !is_separator(path@[i - 1]));
                }
            }
            return None;
        }
        if c == '.' {
            let d = i - 1;
            assert forall|e: int| #[trigger] is_extension_dot(path@, e) implies e == d by {
                if e < d {
                    assert(path@[d as int] != '.');
                }
            }
            if d == 0 {
                return None;
            }
            let b = path.get_char(d - 1);
            if b == '/' || b == '\\' {
                return None;
            }
            return Some(i);
        }
        i = i - 1;
    }
    assert forall|d: int| !is_extension_dot(path@, d) by {
        if is_extension_dot(path@, d) {
            assert(path@[d] == '.');
        }
    }
    None
}

/// Whether the file at relative path `path` is one of the image formats that
/// the cache takes, judged by the extension of its last component, case
/// ignored.
pub fn is_image_file(path: &str) -> (r: bool)
    ensures
        r == is_image_path(path@),
{
    match extension_start(path) {
        None => false,
        Some(s) => {
            let r = extension_is_image(path, s);
            proof {
                let d = s - 1;
                if r {
                    assert(is_extension_dot(path@, d) && is_image_extension(path@.subrange(d + 1, path@.len() as int)));
                }
                if is_image_path(path@) {
                    let e = choose|e: int| is_extension_dot(path@, e) && is_image_extension(#[trigger] path@.subrange(e + 1, path@.len() as int));
                    assert forall|e2: int| #[trigger] is_extension_dot(path@, e2) implies e2 == d by {
                        if e2 < d {
                            assert(path@[d] == '.');
                        } else if e2 > d {
                            assert(path@[e2] == '.');
                        }
                    }
                    assert(e == d);
                }
            }
            r
        },
    }
}

/// The name of the directory that holds history snapshots of a pack.
pub open spec fn history_dir_name() -> Seq<char> {
    seq!['.', 'h', 'i', 's', 't', 'o', 'r', 'y']
}

/// Whether a directory of this name is left out of a preload walk: the one
/// that holds history snapshots.
pub fn is_skipped_dir(name: &str) -> (r: bool)
    ensures
        r == (name@ == history_dir_name()),
{
    let w = ['.', 'h', 'i', 's', 't', 'o', 'r', 'y'];
    assert(w@ == history_dir_name());
    let n = name.unicode_len();
    if n != w.len() {
        return false;
    }
    let mut k: usize = 0;
    while k < n
        invariant
            n == name@.len() == w@.len(),
            w@ == history_dir_name(),
            k <= n,
            forall|i: int| 0 <= i < k ==> name@[i] == w@[i],
        decreases n - k,
    {
        if name.get_char(k) != w[k] {
            assert(name@[k as int] != history_dir_name()[k as int]);
            return false;
        }
        k = k + 1;
    }
    assert(name@ =~= w@);
    true
}

/// A `.history` directory component of `p` starts at position `i`.
pub open spec fn history_component_at(p: Seq<char>, i: int) -> bool {
    &&& 0 <= i && i + 8 < p.len()
    &&& p.subrange(i, i + 8) == history_dir_name()
    &&& i == 0 || is_separator(p[i - 1])
    &&& is_separator(p[i + 8])
}

/// The path `p` lies below a history folder.
pub open spec fn under_history_dir(p: Seq<char>) -> bool {
    exists|i: int| history_component_at(p, i)
}

/// A file the cache takes, given its path relative to the base and its
/// path below the walked folder: an image that does not lie below a history
/// folder met inside the walked folder.
pub open spec fn is_preloaded_file(f: (Seq<char>, Option<Seq<u8>>, Seq<char>)) -> bool {
    is_image_path(f.0) && !under_history_dir(f.2)
}

fn matches_at(p: &str, start: usize, w: &[char]) -> (r: bool)
    requires
        start + w@.len() <= p@.len(),
    ensures
        r == (p@.subrange(start as int, start + w@.len()) == w@),
{
    let n = p.unicode_len();
    let mut k: usize = 0;
    while k < w.len()
        invariant
            n == p@.len(),
            start + w@.len() <= p@.len(),
            k <= w@.len(),
            forall|j: int| 0 <= j < k ==> p@[start + j] == w@[j],
        decreases w@.len() - k,
    {
        if p.get_char(start + k) != w[k] {
            assert(p@.subrange(start as int, start + w@.len())[k as int] == p@[start + k]);
            return false;
        }
        k = k + 1;
    }
    assert(p@.subrange(start as int, start + w@.len()) =~= w@);
    true
}

/// Whether the relative path `path` lies below a directory named
/// `.history`.
pub fn in_history_dir(path: &str) -> (r: bool)
    ensures
        r == under_history_dir(path@),
{
    let w = ['.', 'h', 'i', 's', 't', 'o', 'r', 'y'];
    assert(w@ == history_dir_name());
    let n = path.unicode_len();
    let mut i: usize = 0;
    while i < n && n - i > 8
        invariant
            n == path@.len(),
            i <= n,
            w@ == history_dir_name(),
            forall|j: int| 0 <= j < i ==> !#[trigger] history_component_at(path@, j),
        decreases n - i,
    {
        let before = i == 0 || {
            let b = path.get_char(i - 1);
            b == '/' || b == '\\'
        };
        let a = path.get_char(i + 8);
        if before && (a == '/' || a == '\\') && matches_at(path, i, &w) {
            assert(history_component_at(path@, i as int));
            return true;
        }
        i = i + 1;
    }
    assert forall|j: int| !#[trigger] history_component_at(path@, j) by {
        if 0 <= j < i {
        }
    }
    false
}

/// The cache key of a relative path: its separators all written `/`.
pub fn cache_key(relative_path: &str) -> (r: String)
    ensures
        r@ == normalized(relative_path@),
{
    let n = relative_path.unicode_len();
    let mut key = String::new();
    let mut k: usize = 0;
    while k < n
        invariant
            n == relative_path@.len(),
            k <= n,
            key@ == normalized(relative_path@.subrange(0, k as int)),
        decreases n - k,
    {
        let c = relative_path.get_char(k);
        if c == '\\' {
            push_char(&mut key, '/');
        } else {
            push_char(&mut key, c);
        }
        assert(relative_path@.subrange(0, k + 1) == relative_path@.subrange(0, k as int).push(c));
        assert(normalized(relative_path@.subrange(0, k + 1)) =~= normalized(relative_path@.subrange(0, k as int)).push(
            if c == '\\' { '/' } else { c },
        ));
        k = k + 1;
    }
    assert(relative_path@.subrange(0, n as int) == relative_path@);
    key
}

/// One file met by a preload walk: its path relative to the pack's base
/// directory, its bytes when reading it succeeded, and its path below the
/// walked folder.
#[derive(Debug)]
pub struct LoadedFile {
    pub relative_path: String,
    pub content: Option<Vec<u8>>,
    /// The path of the file below the walked folder.
    pub path_in_folder: String,
}

impl View for LoadedFile {
    type V = (Seq<char>, Option<Seq<u8>>, Seq<char>);

    open spec fn view(&self) -> (Seq<char>, Option<Seq<u8>>, Seq<char>) {
        (
            self.relative_path@,
            match self.content {
                Some(v) => Some(v@),
                None => None,
            },
            self.path_in_folder@,
        )
    }
}

/// The views of a batch of loaded files.
pub open spec fn files_view(files: Seq<LoadedFile>) -> Seq<(Seq<char>, Option<Seq<u8>>, Seq<char>)> {
    files.map_values(|f: LoadedFile| f@)
}

/// A loaded file goes into the cache: it is an image outside history
/// folders and it was read.
pub open spec fn is_cached_load(f: (Seq<char>, Option<Seq<u8>>, Seq<char>)) -> bool {
    is_preloaded_file(f) && f.1 is Some
}

/// The cache `m` after the files of a batch were inserted in order, each that
/// goes into the cache under its normalized path; a later file wins over an
/// earlier one with the same key.
pub open spec fn apply_loads(
    m: Map<Seq<char>, Seq<u8>>,
    files: Seq<(Seq<char>, Option<Seq<u8>>, Seq<char>)>,
) -> Map<Seq<char>, Seq<u8>>
    decreases files.len(),
{
    if files.len() == 0 {
        m
    } else {
        let rest = apply_loads(m, files.drop_last());
        let f = files.last();
        if is_cached_load(f) {
            rest.insert(normalized(f.0), f.1->Some_0)
        } else {
            rest
        }
    }
}

/// How many files of a batch go into the cache.
pub open spec fn loaded_count(files: Seq<(Seq<char>, Option<Seq<u8>>, Seq<char>)>) -> nat
    decreases files.len(),
{
    if files.len() == 0 {
        0
    } else {
        loaded_count(files.drop_last()) + if is_cached_load(files.last()) { 1nat } else { 0nat }
    }
}

proof fn lemma_apply_loads_finite(m: Map<Seq<char>, Seq<u8>>, files: Seq<(Seq<char>, Option<Seq<u8>>, Seq<char>)>)
    requires
        m.dom().finite(),
    ensures
        apply_loads(m, files).dom().finite(),
    decreases files.len(),
{
    if files.len() > 0 {
        lemma_apply_loads_finite(m, files.drop_last());
    }
}

/// The normalized paths of the files of a batch are pairwise distinct.
pub open spec fn distinct_keys(files: Seq<(Seq<char>, Option<Seq<u8>>, Seq<char>)>) -> bool {
    forall|i: int, j: int|
        0 <= i < j < files.len() ==> normalized(#[trigger] files[i].0) != normalized(#[trigger] files[j].0)
}

/// Every file of a batch was read.
pub open spec fn all_read(files: Seq<(Seq<char>, Option<Seq<u8>>, Seq<char>)>) -> bool {
    forall|i: int| 0 <= i < files.len() ==> (#[trigger] files[i]).1 is Some
}

/// The files of a batch that the cache takes: images outside the history
/// folders of the walked folder.
pub open spec fn image_files(files: Seq<(Seq<char>, Option<Seq<u8>>, Seq<char>)>) -> Seq<(Seq<char>, Option<Seq<u8>>, Seq<char>)> {
    files.filter(|f: (Seq<char>, Option<Seq<u8>>, Seq<char>)| is_preloaded_file(f))
}

proof fn lemma_apply_loads_keys(files: Seq<(Seq<char>, Option<Seq<u8>>, Seq<char>)>, k: Seq<char>)
    ensures
        apply_loads(empty_cache(), files).contains_key(k) <==> exists|i: int|
            0 <= i < files.len() && is_cached_load(#[trigger] files[i]) && normalized(files[i].0) == k,
    decreases files.len(),
{
    if files.len() > 0 {
        let p = files.drop_last();
        lemma_apply_loads_keys(p, k);
        if exists|i: int| 0 <= i < p.len() && is_cached_load(#[trigger] p[i]) && normalized(p[i].0) == k {
            let i = choose|i: int| 0 <= i < p.len() && is_cached_load(#[trigger] p[i]) && normalized(p[i].0) == k;
            assert(files[i] == p[i]);
        }
        if exists|i: int| 0 <= i < files.len() && is_cached_load(#[trigger] files[i]) && normalized(files[i].0) == k {
            let i = choose|i: int| 0 <= i < files.len() && is_cached_load(#[trigger] files[i]) && normalized(files[i].0) == k;
            if i < files.len() - 1 {
                assert(files[i] == p[i]);
            }
        }
    }
}

/// A batch whose files were all read, under distinct keys, fills an empty
/// cache with exactly one entry per image file, and the count returned is
/// the number of image files; a file of any other kind leaves no entry.
pub proof fn lemma_preload_caches_exactly_images(files: Seq<(Seq<char>, Option<Seq<u8>>, Seq<char>)>)
    requires
        distinct_keys(files),
        all_read(files),
    ensures
        loaded_count(files) == image_files(files).len(),
        apply_loads(empty_cache(), files).dom().len() == image_files(files).len(),
        forall|i: int|
            0 <= i < files.len() ==> (apply_loads(empty_cache(), files).contains_key(normalized(#[trigger] files[i].0))
                <==> is_preloaded_file(files[i])),
    decreases files.len(),
{
    reveal(Seq::filter);
    lemma_apply_loads_finite(empty_cache(), files);
    if files.len() > 0 {
        let p = files.drop_last();
        assert(distinct_keys(p)) by {
            assert forall|i: int, j: int| 0 <= i < j < p.len() implies normalized(#[trigger] p[i].0) != normalized(#[trigger] p[j].0) by {
                assert(p[i] == files[i] && p[j] == files[j]);
            }
        }
        assert(all_read(p)) by {
            assert forall|i: int| 0 <= i < p.len() implies (#[trigger] p[i]).1 is Some by {
                assert(p[i] == files[i]);
            }
        }
        lemma_preload_caches_exactly_images(p);
        lemma_apply_loads_finite(empty_cache(), p);
        let last = files.last();
        let key = normalized(last.0);
        assert(all_read(files));
        assert(files[files.len() - 1].1 is Some);
        lemma_apply_loads_keys(p, key);
        assert(!apply_loads(empty_cache(), p).contains_key(key)) by {
            if apply_loads(empty_cache(), p).contains_key(key) {
                let i = choose|i: int| 0 <= i < p.len() && is_cached_load(#[trigger] p[i]) && normalized(p[i].0) == key;
                assert(p[i] == files[i]);
                assert(normalized(files[i].0) != normalized(files[files.len() - 1].0));
            }
        }
        assert forall|i: int| 0 <= i < files.len() implies (apply_loads(empty_cache(), files).contains_key(
            normalized(#[trigger] files[i].0),
        ) <==> is_preloaded_file(files[i])) by {
            if i < files.len() - 1 {
                assert(p[i] == files[i]);
                assert(normalized(files[i].0) != key);
            }
        }
    }
}

/// No file after position `i` of a batch goes into the cache under the same
/// key as file `i`.
pub open spec fn last_with_its_key(files: Seq<(Seq<char>, Option<Seq<u8>>, Seq<char>)>, i: int) -> bool {
    forall|j: int| i < j < files.len() && is_cached_load(#[trigger] files[j]) ==> normalized(files[j].0) != normalized(files[i].0)
}

/// Keys that a batch adds to a cache never hold `\`, and each image file
/// that was read is then found under its normalized path with exactly the
/// bytes that were read, unless a later file of the batch took that key.
pub proof fn lemma_keys_slash_separated(m: Map<Seq<char>, Seq<u8>>, files: Seq<(Seq<char>, Option<Seq<u8>>, Seq<char>)>)
    ensures
        forall|k: Seq<char>, j: int|
            #[trigger] apply_loads(m, files).contains_key(k) && !m.contains_key(k) && 0 <= j < k.len() ==> #[trigger] k[j]
                != '\\',
        forall|i: int|
            0 <= i < files.len() && is_cached_load(#[trigger] files[i]) && last_with_its_key(files, i) ==> apply_loads(
                m,
                files,
            ).contains_key(normalized(files[i].0)) && apply_loads(m, files)[normalized(files[i].0)] == files[i].1->Some_0,
    decreases files.len(),
{
    if files.len() > 0 {
        let p = files.drop_last();
        lemma_keys_slash_separated(m, p);
        assert forall|i: int|
            0 <= i < files.len() && is_cached_load(#[trigger] files[i]) && last_with_its_key(files, i) implies apply_loads(
                m,
                files,
            ).contains_key(normalized(files[i].0)) && apply_loads(m, files)[normalized(files[i].0)] == files[i].1->Some_0 by {
            if i < files.len() - 1 {
                assert(p[i] == files[i]);
                assert forall|j: int| i < j < p.len() && is_cached_load(#[trigger] p[j]) implies normalized(p[j].0) != normalized(
                    p[i].0,
                ) by {
                    assert(p[j] == files[j]);
                }
                assert(last_with_its_key(p, i));
                if is_cached_load(files[files.len() - 1]) {
                    assert(normalized(files[files.len() - 1].0) != normalized(files[i].0));
                }
            }
        }
        let last = files.last();
        assert forall|k: Seq<char>, j: int|
            #[trigger] apply_loads(m, files).contains_key(k) && !m.contains_key(k) && 0 <= j < k.len() implies #[trigger] k[j]
                != '\\' by {
            if k != normalized(last.0) {
                assert(apply_loads(m, p).contains_key(k));
            }
        }
    }
}

/// Once the cache is emptied, it reports no entries and holds no key.
pub proof fn lemma_cleared_cache_holds_nothing(p: ImagePreloader, key: Seq<char>)
    requires
        p.entries() == empty_cache(),
    ensures
        p.entries().dom().len() == 0,
        !p.entries().contains_key(key),
{
    assert(p.entries().dom() =~= Set::<Seq<char>>::empty());
}

/// An in-memory cache of image bytes keyed by logical path, with the keys
/// being loaded and the folder that it currently represents.
pub struct ImagePreloader {
    cache: DashMap<String, Vec<u8>>,
    loading: Vec<String>,
    max_cache_size: usize,
    current_folder: Option<String>,
}

impl ImagePreloader {
    /// The cached entries: logical path to bytes.
    pub closed spec fn entries(&self) -> Map<Seq<char>, Seq<u8>> {
        cache_contents(self.cache)
    }

    /// The keys that are being loaded.
    pub closed spec fn in_flight(&self) -> Seq<Seq<char>> {
        self.loading@.map_values(|s: String| s@)
    }

    /// The folder that the cache currently represents.
    pub closed spec fn active_folder(&self) -> Option<Seq<char>> {
        match self.current_folder {
            Some(f) => Some(f@),
            None => None,
        }
    }

    /// The capacity that the cache was made with.
    pub closed spec fn capacity(&self) -> nat {
        self.max_cache_size as nat
    }

    /// The cache holds finitely many entries, so that it can count them, and
    /// the keys being loaded form a set: none appears twice.
    pub closed spec fn wf(&self) -> bool {
        &&& self.entries().dom().finite()
        &&& self.in_flight().no_duplicates()
    }

    /// An empty cache, with room for `max_cache_size` entries made ahead.
    pub fn new(max_cache_size: usize) -> (r: Self)
        ensures
            r.wf(),
            r.entries() == empty_cache(),
            r.in_flight().len() == 0,
            r.active_folder() is None,
            r.capacity() == max_cache_size,
    {
        ImagePreloader {
            cache: map_with_capacity(max_cache_size),
            loading: Vec::new(),
            max_cache_size,
            current_folder: None,
        }
    }

    /// Empties the cache and the set of keys being loaded, and forgets the
    /// active folder.
    pub fn clear_cache(&mut self)
        requires
            old(self).wf(),
        ensures
            final(self).wf(),
            final(self).entries() == empty_cache(),
            final(self).in_flight().len() == 0,
            final(self).active_folder() is None,
            final(self).capacity() == old(self).capacity(),
    {
        map_clear(&mut self.cache);
        self.loading.clear();
        self.current_folder = None;
    }

    /// A copy of the bytes cached under exactly `relative_path`, if any.
    pub fn get_cached(&self, relative_path: &str) -> (r: Option<Vec<u8>>)
        requires
            self.wf(),
        ensures
            match r {
                Some(v) => self.entries().contains_key(relative_path@) && v@ == self.entries()[relative_path@],
                None => !self.entries().contains_key(relative_path@),
            },
    {
        map_get(&self.cache, relative_path)
    }

    /// The number of cached entries and the number of keys being loaded.
    pub fn get_stats(&self) -> (r: (usize, usize))
        requires
            self.wf(),
        ensures
            r.0 == self.entries().dom().len(),
            r.1 == self.in_flight().len(),
    {
        (map_len(&self.cache), self.loading.len())
    }

    /// Records `folder_path` as the active folder and takes in what a walk of
    /// it gave: an error of the walk itself is handed back with the cache
    /// untouched; otherwise each image file that was read, and does not lie
    /// below a history folder met inside the walked folder, is inserted
    /// under its normalized path, and the number of those is returned. A
    /// file that could not be read is left out and fails nothing else.
    pub fn preload_folder_aggressive(&mut self, folder_path: &str, walk: Result<Vec<LoadedFile>, String>) -> (r: Result<
        usize,
        String,
    >)
        requires
            old(self).wf(),
        ensures
            final(self).wf(),
            final(self).active_folder() == Some(folder_path@),
            final(self).in_flight() == old(self).in_flight(),
            final(self).capacity() == old(self).capacity(),
            match walk {
                Err(e) => r == Err::<usize, String>(e) && final(self).entries() == old(self).entries(),
                Ok(files) => r == Ok::<usize, String>(loaded_count(files_view(files@)) as usize)
                    && final(self).entries() == apply_loads(old(self).entries(), files_view(files@)),
            },
    {
        self.current_folder = Some(folder_path.to_string());
        let files = match walk {
            Err(e) => return Err(e),
            Ok(files) => files,
        };
        let ghost start = self.entries();
        let ghost fv = files_view(files@);
        let mut count: usize = 0;
        let mut i: usize = 0;
        while i < files.len()
            invariant
                i <= files@.len(),
                fv == files_view(files@),
                start.dom().finite(),
                self.entries() == apply_loads(start, fv.take(i as int)),
                count == loaded_count(fv.take(i as int)),
                count <= i,
                self.in_flight() == old(self).in_flight(),
                self.active_folder() == Some(folder_path@),
                self.capacity() == old(self).capacity(),
            decreases files@.len() - i,
        {
            let f = &files[i];
            assert(fv.take(i + 1).drop_last() == fv.take(i as int));
            assert(fv.take(i + 1).last() == f@);
            if is_image_file(f.relative_path.as_str()) && !in_history_dir(f.path_in_folder.as_str()) {
                match &f.content {
                    Some(bytes) => {
                        let key = cache_key(f.relative_path.as_str());
                        let copy = bytes.clone();
                        assert(copy@ =~= bytes@);
                        map_insert(&mut self.cache, key, copy);
                        count = count + 1;
                    },
                    None => {},
                }
            }
            i = i + 1;
        }
        assert(fv.take(files@.len() as int) == fv);
        proof {
            lemma_apply_loads_finite(start, fv);
        }
        Ok(count)
    }

    /// The same as `preload_folder_aggressive`; the size hint is not used.
    pub fn preload_folder(&mut self, folder_path: &str, walk: Result<Vec<LoadedFile>, String>, _max_size: u32) -> (r:
        Result<usize, String>)
        requires
            old(self).wf(),
        ensures
            final(self).wf(),
            final(self).active_folder() == Some(folder_path@),
            final(self).in_flight() == old(self).in_flight(),
            final(self).capacity() == old(self).capacity(),
            match walk {
                Err(e) => r == Err::<usize, String>(e) && final(self).entries() == old(self).entries(),
                Ok(files) => r == Ok::<usize, String>(loaded_count(files_view(files@)) as usize)
                    && final(self).entries() == apply_loads(old(self).entries(), files_view(files@)),
            },
    {
        self.preload_folder_aggressive(folder_path, walk)
    }
}

} // verus!
