//! How device sources are compiled: which compiler is tried, with which arguments, and what
//! the result is called.

use crate::export::{joined, path_join};
use vstd::prelude::*;
use vstd::string::{StrSliceExecFns, StringExecFns};

verus! {

/// The last place of a character in a text, -1 where it does not occur.
pub open spec fn last_place(s: Seq<char>, c: char) -> int
    decreases s.len(),
{
    if s.len() == 0 {
        -1
    } else if s.last() == c {
        s.len() - 1
    } else {
        last_place(s.drop_last(), c)
    }
}

/// What follows the last separator of a path.
pub open spec fn base_name(path: Seq<char>) -> Seq<char> {
    path.skip(last_place(path, '/') + 1)
}

/// A name without its extension. A point at the front starts no extension.
pub open spec fn stem(name: Seq<char>) -> Seq<char> {
    if last_place(name, '.') <= 0 {
        name
    } else {
        name.take(last_place(name, '.'))
    }
}

/// The extension of a name.
pub open spec fn extension(name: Seq<char>) -> Option<Seq<char>> {
    if last_place(name, '.') <= 0 {
        None
    } else {
        Some(name.skip(last_place(name, '.') + 1))
    }
}

/// A path without what only repeats the end of it: separators, and components `.`.
pub open spec fn trimmed(path: Seq<char>) -> Seq<char>
    decreases path.len(),
{
    let n = path.len() as int;
    if n > 0 && path[n - 1] == '/' {
        trimmed(path.drop_last())
    } else if n > 1 && path[n - 1] == '.' && path[n - 2] == '/' {
        trimmed(path.drop_last())
    } else {
        path
    }
}

/// The last component of a path, where that is a name: not the root, and neither `.` nor
/// `..`.
pub open spec fn file_name(path: Seq<char>) -> Option<Seq<char>> {
    let name = base_name(trimmed(path));
    if name.len() == 0 || name == seq!['.'] || name == seq!['.', '.'] {
        None
    } else {
        Some(name)
    }
}

/// A path whose last component has `ptx` behind its stem. A path without a file name stays
/// as it is.
pub open spec fn set_ptx(path: Seq<char>) -> Seq<char> {
    match file_name(path) {
        None => path,
        Some(name) => {
            let t = trimmed(path);
            t.take(t.len() - name.len()) + stem(name) + ".ptx"@
        },
    }
}

/// A path without as many characters at its end as the extension of its file name has.
pub open spec fn cut(path: Seq<char>) -> Seq<char> {
    match file_name(path) {
        None => path,
        Some(name) => match extension(name) {
            None => path,
            Some(ext) => path.take(path.len() - ext.len()),
        },
    }
}

/// A path with the extension `ptx` in place of the one that it had, as `Path::with_extension`
/// has it: the old one is cut off, then the new one is set. Where cutting leaves `..`, which
/// is no file name, nothing is set.
pub open spec fn with_ptx(path: Seq<char>) -> Seq<char> {
    set_ptx(cut(path))
}

/// The compiled file for a name in a directory: any extension gives way to `ptx`.
pub open spec fn compiled(dir: Seq<char>, name: Seq<char>) -> Seq<char> {
    with_ptx(joined(dir, name))
}

/// One behind the last place of a character; zero where it does not occur.
fn behind_last(s: &str, c: char) -> (r: usize)
    ensures
        r == last_place(s@, c) + 1,
        r <= s@.len(),
{
    let n: usize = s.unicode_len();
    let mut i: usize = n;
    assert(s@.take(n as int) =~= s@);
    while i > 0
        invariant
            i <= n,
            n == s@.len(),
            last_place(s@, c) == last_place(s@.take(i as int), c),
        decreases i,
    {
        let ghost t = s@.take(i as int);
        assert(t.drop_last() =~= s@.take(i - 1));
        assert(t.last() == s@[i - 1]);
        if s.get_char(i - 1) == c {
            return i;
        }
        i = i - 1;
    }
    0
}

fn strip(name: &str) -> (r: String)
    ensures
        r@ == stem(name@),
{
    let n: usize = behind_last(name, '.');
    if n <= 1 {
        return name.to_owned();
    }
    let s: &str = name.substring_char(0, n - 1);
    assert(s@ =~= name@.take(n - 1));
    s.to_owned()
}

proof fn lemma_last_place(s: Seq<char>, c: char)
    ensures
        -1 <= last_place(s, c) < s.len(),
    decreases s.len(),
{
    if s.len() > 0 {
        lemma_last_place(s.drop_last(), c);
    }
}

fn trim<'a>(path: &'a str) -> (r: &'a str)
    ensures
        r@ == trimmed(path@),
{
    let mut n: usize = path.unicode_len();
    assert(path@.take(n as int) =~= path@);
    while n > 0 && (path.get_char(n - 1) == '/' || (n > 1 && path.get_char(n - 1) == '.'
        && path.get_char(n - 2) == '/'))
        invariant
            n <= path@.len(),
            trimmed(path@) == trimmed(path@.take(n as int)),
        decreases n,
    {
        assert(path@.take(n as int).drop_last() =~= path@.take(n - 1));
        n = n - 1;
    }
    let r: &str = path.substring_char(0, n);
    assert(r@ =~= path@.take(n as int));
    r
}

/// The last component of a trimmed path, where that is a name.
fn name_in<'a>(t: &'a str) -> (r: Option<&'a str>)
    ensures
        match r {
            Some(name) => name@ == base_name(t@) && name@.len() <= t@.len() && !(name@.len() == 0
                || name@ == seq!['.'] || name@ == seq!['.', '.']),
            None => {
                let name = base_name(t@);
                name.len() == 0 || name == seq!['.'] || name == seq!['.', '.']
            },
        },
{
    proof {
        lemma_last_place(t@, '/');
    }
    let name: &str = t.substring_char(behind_last(t, '/'), t.unicode_len());
    assert(name@ =~= base_name(t@));
    let n: usize = name.unicode_len();
    if n == 0 {
        return None;
    }
    if n == 1 && name.get_char(0) == '.' {
        assert(name@ =~= seq!['.']);
        return None;
    }
    if n == 2 && name.get_char(0) == '.' && name.get_char(1) == '.' {
        assert(name@ =~= seq!['.', '.']);
        return None;
    }
    Some(name)
}

/// True for device sources: files with the extension `cu`.
pub fn is_device_source(path: &str) -> (r: bool)
    ensures
        r == (file_name(path@) is Some && extension(file_name(path@).unwrap()) == Some("cu"@)),
{
    match name_in(trim(path)) {
        None => false,
        Some(name) => {
            let n: usize = behind_last(name, '.');
            if n <= 1 {
                return false;
            }
            let ext: &str = name.substring_char(n, name.unicode_len());
            assert(ext@ =~= name@.skip(n as int));
            crate::text::str_eq(ext, "cu")
        },
    }
}

/// The compiled file for a device source.
pub fn ptx_path(out_dir: &str, source: &str) -> (r: String)
    requires
        file_name(source@) is Some,
    ensures
        r@ == compiled(out_dir@, stem(file_name(source@).unwrap())),
{
    match name_in(trim(source)) {
        None => out_dir.to_owned(),
        Some(name) => {
            let once: String = strip(name);
            variant_path(out_dir, once.as_str())
        },
    }
}

proof fn lemma_trimmed_len(path: Seq<char>)
    ensures
        trimmed(path).len() <= path.len(),
    decreases path.len(),
{
    let n = path.len() as int;
    if n > 0 && (path[n - 1] == '/' || (n > 1 && path[n - 1] == '.' && path[n - 2] == '/')) {
        lemma_trimmed_len(path.drop_last());
    }
}

/// Cuts the extension off.
fn cut_off<'a>(path: &'a str) -> (r: &'a str)
    ensures
        r@ == cut(path@),
{
    let name: &str = match name_in(trim(path)) {
        None => {
            return path;
        },
        Some(name) => name,
    };
    proof {
        lemma_trimmed_len(path@);
        lemma_last_place(name@, '.');
    }
    let n: usize = behind_last(name, '.');
    if n <= 1 {
        return path;
    }
    let ext: usize = name.unicode_len() - n;
    let r: &str = path.substring_char(0, path.unicode_len() - ext);
    assert(r@ =~= cut(path@));
    r
}

/// Sets the extension.
fn put_ptx(path: &str) -> (r: String)
    ensures
        r@ == set_ptx(path@),
{
    let t: &str = trim(path);
    let file: &str = match name_in(t) {
        None => {
            return path.to_owned();
        },
        Some(file) => file,
    };
    let head: &str = t.substring_char(0, t.unicode_len() - file.unicode_len());
    assert(head@ =~= t@.take(t@.len() - file@.len()));
    let front: String = head.to_owned().concat(strip(file).as_str());
    front.concat(".ptx")
}

/// The compiled file for a variant that has a name of its own.
pub fn variant_path(out_dir: &str, name: &str) -> (r: String)
    ensures
        r@ == compiled(out_dir@, name@),
{
    let path: String = path_join(out_dir, name);
    put_ptx(cut_off(path.as_str()))
}

/// Where the compiler is looked for, in order: the toolkit that the environment names,
/// then the usual places.
pub fn compiler_candidates(cuda_home: Option<&str>) -> (v: Vec<String>)
    ensures
        v@.len() == 3 + (if cuda_home is Some {
            1int
        } else {
            0
        }),
        cuda_home is Some ==> v@[0]@ == joined(cuda_home.unwrap()@, "bin/nvcc"@),
        v@[v@.len() - 3]@ == "/opt/cuda/bin/nvcc"@,
        v@[v@.len() - 2]@ == "/opt/cuda-12.9/bin/nvcc"@,
        v@[v@.len() - 1]@ == "/usr/local/cuda-12.9/bin/nvcc"@,
{
    let mut v: Vec<String> = Vec::new();
    if let Some(home) = cuda_home {
        v.push(path_join(home, "bin/nvcc"));
    }
    v.push("/opt/cuda/bin/nvcc".to_owned());
    v.push("/opt/cuda-12.9/bin/nvcc".to_owned());
    v.push("/usr/local/cuda-12.9/bin/nvcc".to_owned());
    v
}

/// The contents of a list of texts.
pub open spec fn words_of(v: Seq<String>) -> Seq<Seq<char>> {
    Seq::new(v.len(), |i: int| v[i]@)
}

/// The compiler's arguments.
pub open spec fn arguments(
    cu: Seq<char>,
    ptx: Seq<char>,
    defines: Seq<Seq<char>>,
    ccbin: Option<Seq<char>>,
) -> Seq<Seq<char>> {
    seq![
        "-ptx"@,
        "-O3"@,
        "-arch"@,
        "sm_61"@,
        "-lineinfo"@,
        "-Wno-deprecated-gpu-targets"@,
    ] + defines + seq![cu, "-o"@, ptx] + match ccbin {
        Some(c) => seq!["-ccbin"@, c],
        None => seq![],
    }
}

fn push_word(v: &mut Vec<String>, w: &str)
    ensures
        words_of(final(v)@) == words_of(old(v)@).push(w@),
{
    v.push(w.to_owned());
    assert(words_of(v@) =~= words_of(old(v)@).push(w@));
}

/// The compiler's arguments: the architecture of the card, the definitions of a variant,
/// and the host compiler where one is named.
pub fn nvcc_args(cu: &str, ptx: &str, defines: &[String], ccbin: Option<&str>) -> (v: Vec<String>)
    ensures
        words_of(v@) == arguments(
            cu@,
            ptx@,
            words_of(defines@),
            match ccbin {
                Some(c) => Some(c@),
                None => None,
            },
        ),
{
    let mut v: Vec<String> = Vec::new();
    let ghost head = seq![
        "-ptx"@,
        "-O3"@,
        "-arch"@,
        "sm_61"@,
        "-lineinfo"@,
        "-Wno-deprecated-gpu-targets"@,
    ];
    push_word(&mut v, "-ptx");
    push_word(&mut v, "-O3");
    push_word(&mut v, "-arch");
    push_word(&mut v, "sm_61");
    push_word(&mut v, "-lineinfo");
    push_word(&mut v, "-Wno-deprecated-gpu-targets");
    assert(words_of(v@) =~= head);
    let mut i: usize = 0;
    assert(words_of(v@) =~= head + words_of(defines@).take(0));
    while i < defines.len()
        invariant
            i <= defines.len(),
            words_of(v@) == head + words_of(defines@).take(i as int),
        decreases defines.len() - i,
    {
        push_word(&mut v, defines[i].as_str());
        i = i + 1;
        assert(words_of(v@) =~= head + words_of(defines@).take(i as int));
    }
    assert(words_of(defines@).take(i as int) =~= words_of(defines@));
    push_word(&mut v, cu);
    push_word(&mut v, "-o");
    push_word(&mut v, ptx);
    let ghost mid = head + words_of(defines@) + seq![cu@, "-o"@, ptx@];
    assert(words_of(v@) =~= mid);
    if let Some(c) = ccbin {
        push_word(&mut v, "-ccbin");
        push_word(&mut v, c);
        assert(words_of(v@) =~= mid + seq!["-ccbin"@, c@]);
    } else {
        assert(words_of(v@) =~= mid + seq![]);
    }
    v
}

proof fn lemma_place_is_last(s: Seq<char>, c: char, k: int)
    requires
        0 <= k < s.len(),
        s[k] == c,
        forall|j: int| k < j < s.len() ==> #[trigger] s[j] != c,
    ensures
        last_place(s, c) == k,
    decreases s.len(),
{
    if k < s.len() - 1 {
        assert(s[s.len() - 1] != c);
        lemma_place_is_last(s.drop_last(), c, k);
    }
}

/// A device source is compiled to the file of the same name with the extension `ptx`, in the
/// directory that is asked for.
pub proof fn sources_compile_to_files_of_their_name(
    dir: Seq<char>,
    name: Seq<char>,
    ext: Seq<char>,
)
    requires
        dir.len() > 0,
        dir.last() != '/',
        name.len() > 0,
        name != seq!['.'],
        ext.len() > 0,
        forall|i: int| 0 <= i < name.len() ==> #[trigger] name[i] != '/',
        forall|i: int| 0 <= i < ext.len() ==> #[trigger] ext[i] != '/' && ext[i] != '.',
    ensures
        compiled(dir, name.push('.') + ext) == dir.push('/') + name + ".ptx"@,
{
    let file = name.push('.') + ext;
    let path = dir.push('/') + file;
    let d = dir.len() as int;
    assert(file[0] == name[0] && name[0] != '/');
    assert(joined(dir, file) == path);
    assert(path[path.len() - 1] == ext[ext.len() - 1]);
    assert(trimmed(path) == path);
    assert forall|j: int| d < j < path.len() implies #[trigger] path[j] != '/' by {
        let k = j - d - 1;
        if k < name.len() {
            assert(path[j] == name[k]);
        } else if k > name.len() {
            assert(path[j] == ext[k - name.len() - 1]);
        }
    }
    lemma_place_is_last(path, '/', d);
    assert(path.skip(d + 1) =~= file);
    assert forall|j: int| name.len() < j < file.len() implies #[trigger] file[j] != '.' by {
        assert(file[j] == ext[j - name.len() - 1]);
    }
    lemma_place_is_last(file, '.', name.len() as int);
    assert(file[file.len() - 1] == ext[ext.len() - 1]);
    assert(file.skip(name.len() as int + 1) =~= ext);
    assert(file_name(path) == Some(file)) by {
        assert(seq!['.', '.'][1] == '.');
        assert(seq!['.'][0] == '.');
    }
    let short = path.take(path.len() - ext.len());
    assert(cut(path) == short);
    let bare = name.push('.');
    assert(short =~= dir.push('/') + bare);
    assert(short[short.len() - 2] == name[name.len() - 1]);
    assert(trimmed(short) == short);
    assert forall|j: int| d < j < short.len() implies #[trigger] short[j] != '/' by {
        assert(path[j] != '/');
    }
    lemma_place_is_last(short, '/', d);
    assert(short.skip(d + 1) =~= bare);
    lemma_place_is_last(bare, '.', name.len() as int);
    assert(bare != seq!['.', '.']) by {
        if bare == seq!['.', '.'] {
            assert(name =~= seq!['.']);
        }
    }
    assert(bare.take(name.len() as int) =~= name);
    assert(short.take(short.len() - bare.len()) =~= dir.push('/'));
    assert(set_ptx(short) == dir.push('/') + name + ".ptx"@);
}

} // verus!
