//! Content hashing of flag lists and the output path mapping.
use vstd::prelude::*;
use sugar_path::SugarPath;
use vstd::utf8::encode_utf8;
use crate::text::{chars_of, format_in_base, hexadecimal, split_char, split_on, substring, views};

verus! {

/// The 64-bit XXH3 digest (default seed) of a byte sequence.
pub uninterp spec fn xxh3_64_of(bytes: Seq<u8>) -> u64;

/// Relies on xxhash_rust::xxh3::xxh3_64: the XXH3 64-bit digest of the input
/// with the default seed, which depends on the bytes alone.
#[verifier::external_body]
fn xxh3_digest(bytes: &Vec<u8>) -> (r: u64)
    ensures
        r == xxh3_64_of(bytes@),
{
    xxhash_rust::xxh3::xxh3_64(bytes.as_slice())
}

/// The UTF-8 bytes of the flags, one after the other.
pub open spec fn concat_bytes(flags: Seq<Seq<char>>) -> Seq<u8>
    decreases flags.len(),
{
    if flags.len() == 0 {
        Seq::<u8>::empty()
    } else {
        concat_bytes(flags.drop_last()) + encode_utf8(flags.last())
    }
}

/// The hash of a flag list: the hexadecimal XXH3 digest of its bytes.
pub open spec fn flags_hash(flags: Seq<Seq<char>>) -> Seq<char> {
    hexadecimal(xxh3_64_of(concat_bytes(flags)) as nat)
}

/// Hashes a flag list, depending on both the content and the order of the
/// flags.
pub fn vector_hash(data: &[String]) -> (r: String)
    ensures
        r@ == flags_hash(views(data@)),
{
    let mut bytes: Vec<u8> = Vec::new();
    let mut i: usize = 0;
    while i < data.len()
        invariant
            i <= data@.len(),
            bytes@ == concat_bytes(views(data@.subrange(0, i as int))),
        decreases data@.len() - i,
    {
        let piece = data[i].as_str().as_bytes();
        let ghost before = bytes@;
        let mut j: usize = 0;
        while j < piece.len()
            invariant
                j <= piece@.len(),
                bytes@ == before + piece@.subrange(0, j as int),
            decreases piece@.len() - j,
        {
            bytes.push(piece[j]);
            assert(piece@.subrange(0, j + 1) =~= piece@.subrange(0, j as int).push(piece@[j as int]));
            j = j + 1;
        }
        proof {
            let done = views(data@.subrange(0, i + 1));
            assert(done.drop_last() =~= views(data@.subrange(0, i as int)));
            assert(done.last() == data@[i as int]@);
            assert(piece@.subrange(0, j as int) =~= piece@);
        }
        i = i + 1;
    }
    assert(data@.subrange(0, i as int) =~= data@);
    let digest = xxh3_digest(&bytes);
    format_in_base(digest, 16)
}

/// Why a source file has no place in an output tree.
#[derive(Debug, Clone, PartialEq)]
pub enum PathError {
    /// The source file does not lie under the repository root.
    PathNotUnderRepo { file: String, root: String },
    /// A relative path could not be resolved against the current directory.
    CurrentDirUnavailable,
}

/// Whether `p` starts at the file-system root.
pub open spec fn is_rooted(p: Seq<char>) -> bool {
    p.len() > 0 && p[0] == '/'
}

/// A path component that names something: neither empty nor `.`.
pub open spec fn is_name(c: Seq<char>) -> bool {
    c.len() > 0 && c != seq!['.']
}

/// The named components among `parts`, in order.
pub open spec fn keep_names(parts: Seq<Seq<char>>) -> Seq<Seq<char>>
    decreases parts.len(),
{
    if parts.len() == 0 {
        Seq::<Seq<char>>::empty()
    } else {
        let k = keep_names(parts.drop_last());
        if is_name(parts.last()) {
            k.push(parts.last())
        } else {
            k
        }
    }
}

/// The components of a path: what lies between separators, without empty
/// and `.` components.
pub open spec fn components(p: Seq<char>) -> Seq<Seq<char>> {
    keep_names(split_on(p, '/'))
}

/// The components of `p` after those of `base`, when `base` is a
/// component-wise prefix of `p` with the same rootedness.
pub open spec fn strip_components(p: Seq<char>, base: Seq<char>) -> Option<Seq<Seq<char>>> {
    let pc = components(p);
    let bc = components(base);
    if is_rooted(p) == is_rooted(base) && bc.len() <= pc.len() && pc.subrange(0, bc.len() as int)
        == bc {
        Some(pc.subrange(bc.len() as int, pc.len() as int))
    } else {
        None
    }
}

/// The components joined by single separators.
pub open spec fn join_components(cs: Seq<Seq<char>>) -> Seq<char>
    decreases cs.len(),
{
    if cs.len() == 0 {
        Seq::<char>::empty()
    } else if cs.len() == 1 {
        cs[0]
    } else {
        join_components(cs.drop_last()) + seq!['/'] + cs.last()
    }
}

/// Index of the last `.` in `name`, or -1.
pub open spec fn last_dot(name: Seq<char>) -> int
    decreases name.len(),
{
    if name.len() == 0 {
        -1
    } else if name.last() == '.' {
        name.len() - 1
    } else {
        last_dot(name.drop_last())
    }
}

/// A file name without its extension; a leading dot starts no extension.
pub open spec fn file_stem(name: Seq<char>) -> Seq<char> {
    if last_dot(name) <= 0 {
        name
    } else {
        name.subrange(0, last_dot(name))
    }
}

/// `name` with its extension replaced by `ext` (removed when `ext` is
/// empty); `..` has no extension to replace.
pub open spec fn with_extension(name: Seq<char>, ext: Seq<char>) -> Seq<char> {
    if name == seq!['.', '.'] {
        name
    } else if ext.len() == 0 {
        file_stem(name)
    } else {
        file_stem(name) + seq!['.'] + ext
    }
}

/// The separator that goes between `root` and a relative path joined to it:
/// none after an empty path or a trailing separator.
pub open spec fn separator_after(root: Seq<char>) -> Seq<char> {
    if root.len() > 0 && root.last() != '/' {
        seq!['/']
    } else {
        Seq::<char>::empty()
    }
}

/// `file`, relative to `prefix`, re-rooted under `root`, with extension `ext`.
pub open spec fn mirrored_path(root: Seq<char>, file: Seq<char>, prefix: Seq<char>, ext: Seq<char>) -> Option<Seq<char>> {
    match strip_components(file, prefix) {
        None => None,
        Some(rest) => {
            let renamed = if rest.len() == 0 {
                rest
            } else {
                rest.update(rest.len() - 1, with_extension(rest.last(), ext))
            };
            Some(root + separator_after(root) + join_components(renamed))
        },
    }
}

/// The absolute, lexically normalized form of an absolute path.
pub uninterp spec fn normalized_absolute(p: Seq<char>) -> Seq<char>;

/// Relies on sugar_path's `try_absolutize`: an absolute path is normalized
/// lexically without consulting the current directory, and so always
/// succeeds; a relative one is resolved against the current directory.
#[verifier::external_body]
pub fn absolutize(path: &str) -> (r: Option<String>)
    ensures
        is_rooted(path@) ==> r is Some,
        is_rooted(path@) ==> r->Some_0@ == normalized_absolute(path@),
{
    match std::path::Path::new(path).try_absolutize() {
        Ok(p) => Some(p.to_string_lossy().into_owned()),
        Err(_) => None,
    }
}

/// The components of a path.
pub fn path_components(p: &str) -> (r: Vec<String>)
    ensures
        views(r@) == components(p@),
{
    let parts = split_char(p, '/');
    let mut r: Vec<String> = Vec::new();
    let mut i: usize = 0;
    while i < parts.len()
        invariant
            i <= parts@.len(),
            views(parts@) == split_on(p@, '/'),
            views(r@) == keep_names(views(parts@).subrange(0, i as int)),
        decreases parts@.len() - i,
    {
        let ghost seen = views(parts@).subrange(0, i + 1);
        assert(seen.drop_last() =~= views(parts@).subrange(0, i as int));
        let part = parts[i].as_str();
        let cs = chars_of(part);
        let named = if cs.len() == 0 {
            false
        } else if cs.len() == 1 && cs[0] == '.' {
            assert(part@ =~= seq!['.']);
            false
        } else {
            assert(part@ != seq!['.']) by {
                if cs.len() == 1 {
                    assert(part@[0] != seq!['.'][0]);
                }
            }
            true
        };
        if named {
            let ghost before = r@;
            r.push(parts[i].clone());
            assert(views(r@) =~= views(before).push(part@));
        }
        i = i + 1;
    }
    assert(views(parts@).subrange(0, i as int) =~= views(parts@));
    r
}

/// Whether `p` starts at the file-system root.
fn rooted(p: &str) -> (r: bool)
    ensures
        r == is_rooted(p@),
{
    let cs = chars_of(p);
    cs.len() > 0 && cs[0] == '/'
}

/// `name` with its extension replaced by `ext`.
fn replace_extension(name: &str, ext: &str) -> (r: String)
    ensures
        r@ == with_extension(name@, ext@),
{
    let cs = chars_of(name);
    if cs.len() == 2 && cs[0] == '.' && cs[1] == '.' {
        assert(name@ =~= seq!['.', '.']);
        return name.to_owned();
    }
    assert(name@ != seq!['.', '.']) by {
        if name@ == seq!['.', '.'] {
            assert(name@.len() == 2 && name@[0] == '.' && name@[1] == '.');
        }
    }
    let mut i: usize = cs.len();
    assert(name@.subrange(0, i as int) =~= name@);
    while i > 0 && cs[i - 1] != '.'
        invariant
            i <= cs@.len(),
            cs@ == name@,
            last_dot(name@) == last_dot(name@.subrange(0, i as int)),
        decreases i,
    {
        assert(name@.subrange(0, i as int).drop_last() =~= name@.subrange(0, i - 1));
        i = i - 1;
    }
    if i > 0 {
        assert(name@.subrange(0, i as int).last() == '.');
    } else {
        assert(name@.subrange(0, 0).len() == 0);
    }
    let mut r = if i <= 1 {
        name.to_owned()
    } else {
        substring(name, 0, i - 1)
    };
    let ecs = chars_of(ext);
    if ecs.len() > 0 {
        r.append(".");
        r.append(ext);
        proof {
            reveal_strlit(".");
        }
    }
    r
}


/// `root`, a separator where needed, and the components joined.
pub fn join_under(root: &str, rest: &Vec<String>) -> (r: String)
    ensures
        r@ == root@ + separator_after(root@) + join_components(views(rest@)),
{
    let cs = chars_of(root);
    let mut r = root.to_owned();
    if cs.len() > 0 && cs[cs.len() - 1] != '/' {
        r.append("/");
        proof {
            reveal_strlit("/");
        }
    }
    let ghost head = r@;
    assert(views(rest@).subrange(0, 0) =~= Seq::<Seq<char>>::empty());
    assert(r@ =~= head + join_components(views(rest@).subrange(0, 0)));
    let mut i: usize = 0;
    while i < rest.len()
        invariant
            i <= rest@.len(),
            r@ == head + join_components(views(rest@).subrange(0, i as int)),
        decreases rest@.len() - i,
    {
        let ghost done = views(rest@).subrange(0, i + 1);
        assert(done.drop_last() =~= views(rest@).subrange(0, i as int));
        if i > 0 {
            r.append("/");
            proof {
                reveal_strlit("/");
            }
        }
        r.append(rest[i].as_str());
        proof {
            if i == 0 {
                assert(join_components(views(rest@).subrange(0, 0)).len() == 0);
                assert(done.len() == 1);
            }
        }
        i = i + 1;
    }
    assert(views(rest@).subrange(0, i as int) =~= views(rest@));
    r
}

/// `file`, relative to `prefix`, re-rooted under `root` with extension
/// `ext`, before normalization; `None` when `file` is not under `prefix`.
pub fn mirror_path(root: &str, file: &str, prefix: &str, ext: &str) -> (r: Option<String>)
    ensures
        match mirrored_path(root@, file@, prefix@, ext@) {
            Some(p) => r matches Some(s) && s@ == p,
            None => r is None,
        },
{
    let fc = path_components(file);
    let bc = path_components(prefix);
    assert(views(fc@).len() == fc@.len() && views(bc@).len() == bc@.len());
    if rooted(file) != rooted(prefix) || bc.len() > fc.len() {
        return None;
    }
    let mut k: usize = 0;
    while k < bc.len()
        invariant
            k <= bc@.len() <= fc@.len(),
            views(fc@) == components(file@),
            views(bc@) == components(prefix@),
            forall|j: int| 0 <= j < k ==> fc@[j]@ == bc@[j]@,
        decreases bc@.len() - k,
    {
        if fc[k] != bc[k] {
            assert(views(fc@).subrange(0, bc@.len() as int)[k as int] != views(bc@)[k as int]);
            return None;
        }
        k = k + 1;
    }
    assert(views(fc@).subrange(0, bc@.len() as int) =~= views(bc@));
    let ghost rest = views(fc@).subrange(bc@.len() as int, fc@.len() as int);
    let mut renamed: Vec<String> = Vec::new();
    let mut i: usize = bc.len();
    while i < fc.len()
        invariant
            bc@.len() <= i <= fc@.len(),
            views(renamed@) == views(fc@).subrange(bc@.len() as int, i as int),
        decreases fc@.len() - i,
    {
        let ghost before = renamed@;
        let item = fc[i].clone();
        renamed.push(item);
        assert(views(renamed@) =~= views(before).push(fc@[i as int]@));
        assert(views(renamed@) =~= views(fc@).subrange(bc@.len() as int, i + 1));
        i = i + 1;
    }
    let n = renamed.len();
    if n > 0 {
        let ghost before = views(renamed@);
        let last = replace_extension(renamed[n - 1].as_str(), ext);
        renamed.set(n - 1, last);
        assert(views(renamed@) =~= before.update(n - 1, with_extension(before.last(), ext@)));
    }
    Some(join_under(root, &renamed))
}

/// The artifact path of `input_file` in the output tree `output_dir`: its
/// path relative to `prefix`, re-rooted under `output_dir`, with extension
/// `extension`, made absolute and normalized.
pub fn get_output_filename(output_dir: &str, input_file: &str, prefix: &str, extension: &str) -> (r: Result<String, PathError>)
    ensures
        mirrored_path(output_dir@, input_file@, prefix@, extension@) is None <==> r matches Err(
            PathError::PathNotUnderRepo { .. },
        ),
        r matches Err(PathError::PathNotUnderRepo { file, root }) ==> file@ == input_file@ && root@ == prefix@,
        r matches Err(PathError::CurrentDirUnavailable) ==> !is_rooted(output_dir@),
        is_rooted(output_dir@) ==> (r matches Ok(s) ==> s@ == normalized_absolute(
            mirrored_path(output_dir@, input_file@, prefix@, extension@)->Some_0,
        )),
{
    match mirror_path(output_dir, input_file, prefix, extension) {
        None => Err(PathError::PathNotUnderRepo { file: input_file.to_owned(), root: prefix.to_owned() }),
        Some(p) => {
            assert(is_rooted(output_dir@) ==> is_rooted(p@));
            match absolutize(p.as_str()) {
                Some(s) => Ok(s),
                None => Err(PathError::CurrentDirUnavailable),
            }
        },
    }
}

} // verus!
