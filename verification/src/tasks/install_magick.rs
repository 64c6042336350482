use vstd::prelude::*;
use crate::text::{
    chars_eq, chars_eq_str, chars_of, contains_chars, contains_text, lemma_contains_suffix, lines,
    lines_of, occurs_at,
    push_str, split_once, split_once_chars, string_from, trim, trim_chars, trim_start,
    trim_start_chars,
};

verus! {

/// The `(program, arguments)` pairs tried in turn to install ImageMagick on an operating
/// system (`windows`, `linux` or `macos`): winget on Windows, the usual package managers on
/// Linux, brew on macOS; none elsewhere.
pub open spec fn spec_install_candidates(os: Seq<char>) -> Seq<(Seq<char>, Seq<Seq<char>>)> {
    if os == "windows"@ {
        seq![("cmd"@, seq!["/C"@, "winget"@, "install"@, "--id"@, "ImageMagick.ImageMagick"@, "--silent"@])]
    } else if os == "linux"@ {
        seq![
            ("sudo"@, seq!["apt-get"@, "install"@, "-y"@, "imagemagick"@]),
            ("sudo"@, seq!["dnf"@, "install"@, "-y"@, "imagemagick"@]),
            ("sudo"@, seq!["pacman"@, "-S"@, "--noconfirm"@, "imagemagick"@]),
            ("sudo"@, seq!["zypper"@, "install"@, "-y"@, "imagemagick"@]),
        ]
    } else if os == "macos"@ {
        seq![("brew"@, seq!["install"@, "imagemagick"@])]
    } else {
        seq![]
    }
}

/// The text of each string of a list.
pub open spec fn texts(v: Seq<String>) -> Seq<Seq<char>> {
    v.map_values(|s: String| s@)
}

/// The texts of a list of commands.
pub open spec fn command_texts(v: Seq<(String, Vec<String>)>) -> Seq<(Seq<char>, Seq<Seq<char>>)> {
    v.map_values(|c: (String, Vec<String>)| (c.0@, texts(c.1@)))
}

fn owned(args: &[&str]) -> (r: Vec<String>)
    ensures
        texts(r@) == args@.map_values(|a: &str| a@),
{
    let mut r: Vec<String> = Vec::new();
    let mut i: usize = 0;
    while i < args.len()
        invariant
            i <= args@.len(),
            r@.len() == i,
            forall|k: int| 0 <= k < i ==> #[trigger] r@[k]@ == args@[k]@,
        decreases args@.len() - i,
    {
        let a: &str = args[i];
        r.push(a.to_owned());
        i += 1;
    }
    assert(texts(r@) =~= args@.map_values(|a: &str| a@));
    r
}

fn command(program: &str, args: &[&str]) -> (r: (String, Vec<String>))
    ensures
        r.0@ == program@,
        texts(r.1@) == args@.map_values(|a: &str| a@),
{
    (program.to_owned(), owned(args))
}

/// The commands tried in turn to install ImageMagick on `os` (see [`spec_install_candidates`]).
pub fn install_candidates(os: &str) -> (r: Vec<(String, Vec<String>)>)
    ensures
        command_texts(r@) == spec_install_candidates(os@),
{
    let o = chars_of(os);
    let mut r: Vec<(String, Vec<String>)> = Vec::new();
    if chars_eq_str(o.as_slice(), "windows") {
        let args: [&str; 6] = ["/C", "winget", "install", "--id", "ImageMagick.ImageMagick", "--silent"];
        assert(args@.map_values(|a: &str| a@) =~= seq!["/C"@, "winget"@, "install"@, "--id"@, "ImageMagick.ImageMagick"@, "--silent"@]);
        r.push(command("cmd", &args));
        assert(command_texts(r@) =~= spec_install_candidates(os@));
    } else if chars_eq_str(o.as_slice(), "linux") {
        let a1: [&str; 4] = ["apt-get", "install", "-y", "imagemagick"];
        let a2: [&str; 4] = ["dnf", "install", "-y", "imagemagick"];
        let a3: [&str; 4] = ["pacman", "-S", "--noconfirm", "imagemagick"];
        let a4: [&str; 4] = ["zypper", "install", "-y", "imagemagick"];
        assert(a1@.map_values(|a: &str| a@) =~= seq!["apt-get"@, "install"@, "-y"@, "imagemagick"@]);
        assert(a2@.map_values(|a: &str| a@) =~= seq!["dnf"@, "install"@, "-y"@, "imagemagick"@]);
        assert(a3@.map_values(|a: &str| a@) =~= seq!["pacman"@, "-S"@, "--noconfirm"@, "imagemagick"@]);
        assert(a4@.map_values(|a: &str| a@) =~= seq!["zypper"@, "install"@, "-y"@, "imagemagick"@]);
        r.push(command("sudo", &a1));
        r.push(command("sudo", &a2));
        r.push(command("sudo", &a3));
        r.push(command("sudo", &a4));
        assert(command_texts(r@) =~= spec_install_candidates(os@));
    } else if chars_eq_str(o.as_slice(), "macos") {
        let args: [&str; 2] = ["install", "imagemagick"];
        assert(args@.map_values(|a: &str| a@) =~= seq!["install"@, "imagemagick"@]);
        r.push(command("brew", &args));
        assert(command_texts(r@) =~= spec_install_candidates(os@));
    } else {
        assert(command_texts(r@) =~= spec_install_candidates(os@));
    }
    r
}

/// Whether an installer's output line says that ImageMagick is installed already.
pub fn reports_already_installed(line: &str) -> (r: bool)
    ensures
        r == (line@ == "No available upgrade found."@),
{
    let l = chars_of(line);
    chars_eq_str(l.as_slice(), "No available upgrade found.")
}

/// Index of the first line at or after `i` that starts with `Install Location:` once its
/// leading whitespace is removed.
pub open spec fn location_line(ls: Seq<Seq<char>>, i: int) -> Option<int>
    decreases ls.len() - i,
{
    if i < 0 || i >= ls.len() {
        None
    } else if occurs_at(trim_start(ls[i]), "Install Location:"@, 0) {
        Some(i)
    } else {
        location_line(ls, i + 1)
    }
}

/// The install folder that `winget show` reports: on the first line that starts with
/// `Install Location:` (after leading whitespace), the text after the first `:`, trimmed.
pub open spec fn spec_install_location(output: Seq<char>) -> Option<Seq<char>> {
    match location_line(lines(output), 0) {
        None => None,
        Some(i) => match split_once(lines(output)[i], ":"@) {
            Some((_, rest)) => Some(trim(rest)),
            None => None,
        },
    }
}

/// The install folder that `winget show` reports (see [`spec_install_location`]).
pub fn install_location(output: &str) -> (r: Option<String>)
    ensures
        match spec_install_location(output@) {
            None => r is None,
            Some(d) => r matches Some(x) && x@ == d,
        },
{
    let text = chars_of(output);
    let ls = lines_of(text.as_slice());
    let ghost sl = lines(output@);
    let key = chars_of("Install Location:");
    let colon = chars_of(":");
    let mut i: usize = 0;
    while i < ls.len()
        invariant
            sl == lines(output@),
            ls@.len() == sl.len(),
            forall|k: int| 0 <= k < sl.len() ==> #[trigger] ls@[k]@ == sl[k],
            key@ == "Install Location:"@,
            colon@ == ":"@,
            i <= sl.len(),
            location_line(sl, 0) == location_line(sl, i as int),
        decreases sl.len() - i,
    {
        let t = trim_start_chars(ls[i].as_slice());
        let mut starts = false;
        if key.len() <= t.len() {
            let pre = vstd::slice::slice_subrange(t.as_slice(), 0, key.len());
            assert(pre@ =~= t@.subrange(0, key@.len() as int));
            starts = chars_eq(pre, key.as_slice());
        }
        if starts {
            assert(location_line(sl, i as int) == Some(i as int));
            return match split_once_chars(ls[i].as_slice(), colon.as_slice()) {
                Some((_, rest)) => {
                    let d = trim_chars(rest.as_slice());
                    Some(string_from(d.as_slice()))
                },
                None => None,
            };
        }
        assert(location_line(sl, i as int) == location_line(sl, i + 1));
        i += 1;
    }
    None
}

/// The `PATH` with the install folder appended after `;`, or `None` when the folder occurs in
/// it already.
pub open spec fn spec_path_with_install_dir(current_path: Seq<char>, dir: Seq<char>) -> Option<Seq<char>> {
    if contains_text(current_path, dir) {
        None
    } else {
        Some(current_path + ";"@ + dir)
    }
}

/// The `PATH` with the install folder added (see [`spec_path_with_install_dir`]).
pub fn path_with_install_dir(current_path: &str, dir: &str) -> (r: Option<String>)
    ensures
        match spec_path_with_install_dir(current_path@, dir@) {
            None => r is None,
            Some(p) => r matches Some(x) && x@ == p,
        },
{
    let c = chars_of(current_path);
    let d = chars_of(dir);
    if contains_chars(c.as_slice(), d.as_slice()) {
        return None;
    }
    let mut v = c;
    v.push(';');
    push_str(&mut v, dir);
    proof {
        reveal_strlit(";");
        assert(v@ =~= current_path@ + ";"@ + dir@);
    }
    Some(string_from(v.as_slice()))
}

/// Adding the install folder to the `PATH` a second time changes nothing.
pub proof fn law_install_dir_added_once(current_path: Seq<char>, dir: Seq<char>)
    ensures
        spec_path_with_install_dir(current_path, dir) matches Some(p) ==> spec_path_with_install_dir(p, dir) is None,
{
    lemma_contains_suffix(current_path + ";"@, dir);
}

} // verus!
