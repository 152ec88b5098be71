//! The settings file: its values, where it and the theme files live, and
//! how a theme file's name gives the theme's name.
use vstd::prelude::*;
use crate::text::{chars_of, string_of};

verus! {

/// The saved settings.
pub struct Config {
    /// The name of the chosen theme.
    pub theme: Option<String>,
    pub scrollbar: bool,
}

impl Default for Config {
    fn default() -> (c: Config)
        ensures
            c.theme is None,
            !c.scrollbar,
    {
        Config { theme: None, scrollbar: false }
    }
}

/// Whether the scrollbar is shown when the settings do not say.
pub fn default_scrollbar() -> (b: bool)
    ensures
        b,
{
    true
}

impl Config {
    /// The settings in force when there is no settings file or it does not parse.
    pub fn fallback() -> (c: Config)
        ensures
            c.theme is None,
            c.scrollbar,
    {
        Config { theme: None, scrollbar: default_scrollbar() }
    }
}

/// `dir` followed by the relative path `name`, with one `'/'` between them.
pub open spec fn join_rel(dir: Seq<char>, name: Seq<char>) -> Seq<char> {
    if dir.len() == 0 || dir.last() == '/' {
        dir + name
    } else {
        dir + seq!['/'] + name
    }
}

/// Joins the relative path `name` onto `dir`.
pub fn join_path(dir: &str, name: &str) -> (r: String)
    ensures
        r@ == join_rel(dir@, name@),
{
    let mut v = chars_of(dir);
    let n = chars_of(name);
    if v.len() > 0 && v[v.len() - 1] != '/' {
        v.push('/');
    }
    crate::text::push_all(&mut v, &n);
    string_of(v.as_slice())
}

/// The settings directory under the home directory `home`: `.config/mdr`.
pub open spec fn config_dir_of(home: Seq<char>) -> Seq<char> {
    join_rel(join_rel(home, ".config"@), "mdr"@)
}

/// The user's home directory, as `dirs::home_dir` finds it (from the environment
/// or the user database), converted to a string. Nothing is stated of it: it
/// depends on the machine.
#[verifier::external_body]
fn home_dir() -> (r: Option<String>) {
    match dirs::home_dir() {
        Some(p) => Some(p.to_string_lossy().into_owned()),
        None => None,
    }
}

/// The settings directory under the home directory `home`.
pub fn config_dir_in(home: &str) -> (r: String)
    ensures
        r@ == config_dir_of(home@),
{
    let d = join_path(home, ".config");
    join_path(d.as_str(), "mdr")
}

/// The settings directory, if the home directory is known.
pub fn config_dir() -> (r: Option<String>)
    ensures
        r matches Some(d) ==> exists|home: Seq<char>| d@ == config_dir_of(home),
{
    match home_dir() {
        Some(home) => Some(config_dir_in(home.as_str())),
        None => None,
    }
}

/// The settings file, `config.toml` in the settings directory.
pub fn config_path() -> (r: Option<String>)
    ensures
        r matches Some(p) ==> exists|home: Seq<char>| p@ == join_rel(config_dir_of(home), "config.toml"@),
{
    match config_dir() {
        Some(d) => Some(join_path(d.as_str(), "config.toml")),
        None => None,
    }
}

/// The directory of theme files, `themes` in the settings directory.
pub fn themes_dir() -> (r: Option<String>)
    ensures
        r matches Some(p) ==> exists|home: Seq<char>| p@ == join_rel(config_dir_of(home), "themes"@),
{
    match config_dir() {
        Some(d) => Some(join_path(d.as_str(), "themes")),
        None => None,
    }
}

/// The index of the last `'.'` in `s[..k]`, if any.
pub open spec fn last_dot(s: Seq<char>, k: int) -> Option<int>
    decreases k,
{
    if k <= 0 {
        None
    } else if s[k - 1] == '.' {
        Some(k - 1)
    } else {
        last_dot(s, k - 1)
    }
}

/// `s` with every `'-'` replaced by a space.
pub open spec fn dashes_to_spaces(s: Seq<char>) -> Seq<char> {
    s.map_values(|c: char| if c == '-' { ' ' } else { c })
}

/// The theme a file named `file_name` holds: for a name with the extension
/// `toml` (after its last dot, which is not its first character), the part
/// before that dot with dashes read as spaces; none for other files.
pub open spec fn theme_name_of(file_name: Seq<char>) -> Option<Seq<char>> {
    match last_dot(file_name, file_name.len() as int) {
        Some(i) => if i > 0 && file_name.skip(i + 1) == "toml"@ {
            Some(dashes_to_spaces(file_name.take(i)))
        } else {
            None
        },
        None => None,
    }
}

/// The theme name for a file of the themes directory, if it is a theme file.
pub fn theme_name_for_file(file_name: &str) -> (r: Option<String>)
    ensures
        match r {
            Some(n) => theme_name_of(file_name@) == Some(n@),
            None => theme_name_of(file_name@) is None,
        },
{
    let s = chars_of(file_name);
    let mut k = s.len();
    while k > 0 && s[k - 1] != '.'
        invariant
            0 <= k <= s@.len(),
            last_dot(s@, s@.len() as int) == last_dot(s@, k as int),
        decreases k,
    {
        k = k - 1;
    }
    if k <= 1 {
        return None;
    }
    let i = k - 1;
    let ext = crate::text::sub_chars(&s, i + 1, s.len());
    let toml = chars_of("toml");
    let ext_ok = crate::text::has_prefix(&ext, &toml) && ext.len() == toml.len();
    proof {
        assert(ext@ == s@.skip(i + 1));
        if ext_ok {
            assert(ext@ =~= toml@);
        }
        if ext@ == toml@ {
            assert(ext@.take(toml@.len() as int) =~= ext@);
        }
    }
    if !ext_ok {
        return None;
    }
    let mut name: Vec<char> = Vec::new();
    let mut j: usize = 0;
    while j < i
        invariant
            0 <= j <= i < s@.len(),
            name@ == dashes_to_spaces(s@.take(i as int)).take(j as int),
        decreases i - j,
    {
        let c = s[j];
        name.push(if c == '-' {
            ' '
        } else {
            c
        });
        j = j + 1;
        assert(name@ =~= dashes_to_spaces(s@.take(i as int)).take(j as int));
    }
    assert(dashes_to_spaces(s@.take(i as int)).take(i as int) =~= dashes_to_spaces(s@.take(i as int)));
    Some(string_of(name.as_slice()))
}

} // verus!
