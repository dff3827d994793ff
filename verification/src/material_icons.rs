//! The Material file-icon theme: which icon a file or folder shows.
//!
//! The theme manifest maps exact file names, file extensions and folder
//! names to icon keys, and icon keys to SVG resources. Every lookup is by
//! the lowercased name, matching the manifest's own casing rule. Reading
//! and parsing the manifest is the caller's part.
use vstd::prelude::*;

use crate::markdown::join_with;
use crate::paths::views;
use crate::text::{
    append_chars, chars_eq, chars_of, lowercase, occurs_at, slice_chars, split_char, split_on,
    string_of, to_lowercase,
};

verus! {

/// The public resource prefix under which icon resources load.
pub open spec fn prefix() -> Seq<char> {
    "material-icons/"@
}

pub open spec fn file_fallback() -> Seq<char> {
    "material-icons/icons/file.svg"@
}

pub open spec fn folder_fallback() -> Seq<char> {
    "material-icons/icons/folder.svg"@
}

pub open spec fn folder_open_fallback() -> Seq<char> {
    "material-icons/icons/folder-open.svg"@
}

/// An association table from names to icon keys; a later entry overrides
/// an earlier one with the same name.
pub open spec fn pairs_view(t: Seq<(String, String)>) -> Seq<(Seq<char>, Seq<char>)> {
    t.map_values(|p: (String, String)| (p.0@, p.1@))
}

/// The map a table stands for.
pub open spec fn table_map(t: Seq<(Seq<char>, Seq<char>)>) -> Map<Seq<char>, Seq<char>>
    decreases t.len(),
{
    if t.len() == 0 {
        Map::empty()
    } else {
        table_map(t.drop_last()).insert(t.last().0, t.last().1)
    }
}

/// What a table gives for a name.
pub open spec fn table_get(t: Seq<(Seq<char>, Seq<char>)>, k: Seq<char>) -> Option<Seq<char>> {
    if table_map(t).dom().contains(k) {
        Some(table_map(t)[k])
    } else {
        None
    }
}

/// A table with every name lowercased.
pub open spec fn normalized_of(t: Seq<(Seq<char>, Seq<char>)>) -> Seq<(Seq<char>, Seq<char>)> {
    t.map_values(|p: (Seq<char>, Seq<char>)| (lowercase(p.0), p.1))
}

/// Lowercases every name so lookups match the manifest's own casing rule.
pub fn normalized(source: Vec<(String, String)>) -> (r: Vec<(String, String)>)
    ensures
        pairs_view(r@) == normalized_of(pairs_view(source@)),
{
    let ghost sv = pairs_view(source@);
    let mut out: Vec<(String, String)> = Vec::new();
    let mut i: usize = 0;
    while i < source.len()
        invariant
            i <= source@.len(),
            sv == pairs_view(source@),
            pairs_view(out@) =~= normalized_of(sv).take(i as int),
        decreases source@.len() - i,
    {
        let k = string_of(&to_lowercase(&chars_of(source[i].0.as_str())));
        let v = source[i].1.clone();
        out.push((k, v));
        assert(normalized_of(sv).take(i + 1) =~= normalized_of(sv).take(i as int).push(
            normalized_of(sv)[i as int],
        ));
        i += 1;
    }
    out
}

/// The dark table overlaid with the normalized light overrides, so a light
/// lookup falls back to the shared association when no override exists.
pub fn merged(base: &Vec<(String, String)>, light: Option<Vec<(String, String)>>) -> (r: Vec<
    (String, String),
>)
    ensures
        pairs_view(r@) == pairs_view(base@) + normalized_of(
            match light {
                Some(l) => pairs_view(l@),
                None => seq![],
            },
        ),
{
    let over = match light {
        Some(l) => normalized(l),
        None => Vec::new(),
    };
    let mut out: Vec<(String, String)> = Vec::new();
    let mut i: usize = 0;
    while i < base.len()
        invariant
            i <= base@.len(),
            pairs_view(out@) =~= pairs_view(base@).take(i as int),
        decreases base@.len() - i,
    {
        out.push((base[i].0.clone(), base[i].1.clone()));
        assert(pairs_view(base@).take(i + 1) =~= pairs_view(base@).take(i as int).push(
            pairs_view(base@)[i as int],
        ));
        i += 1;
    }
    let mut j: usize = 0;
    while j < over.len()
        invariant
            j <= over@.len(),
            pairs_view(out@) =~= pairs_view(base@) + pairs_view(over@).take(j as int),
        decreases over@.len() - j,
    {
        let ghost before = pairs_view(out@);
        out.push((over[j].0.clone(), over[j].1.clone()));
        assert(pairs_view(out@) =~= before.push(pairs_view(over@)[j as int]));
        assert(pairs_view(over@).take(j + 1) =~= pairs_view(over@).take(j as int).push(
            pairs_view(over@)[j as int],
        ));
        assert(pairs_view(base@) + pairs_view(over@).take(j + 1) =~= (pairs_view(base@) + pairs_view(
            over@,
        ).take(j as int)).push(pairs_view(over@)[j as int]));
        j += 1;
    }
    assert(pairs_view(over@).take(over@.len() as int) =~= pairs_view(over@));
    proof {
        if light is None {
            assert(pairs_view(over@) =~= normalized_of(seq![]));
        }
    }
    out
}

/// Overlaying tables is overriding maps: a lookup in `a + b` finds `b`'s
/// association when there is one, else `a`'s.
pub proof fn lemma_overlay(a: Seq<(Seq<char>, Seq<char>)>, b: Seq<(Seq<char>, Seq<char>)>)
    ensures
        table_map(a + b) == table_map(a).union_prefer_right(table_map(b)),
    decreases b.len(),
{
    if b.len() == 0 {
        assert(a + b =~= a);
        assert(table_map(a).union_prefer_right(Map::empty()) =~= table_map(a));
    } else {
        assert((a + b).drop_last() =~= a + b.drop_last());
        lemma_overlay(a, b.drop_last());
        assert(table_map(a + b) =~= table_map(a).union_prefer_right(table_map(b)));
    }
}

proof fn lemma_table_get_last(t: Seq<(Seq<char>, Seq<char>)>, k: Seq<char>)
    requires
        t.len() > 0,
    ensures
        t.last().0 == k ==> table_get(t, k) == Some(t.last().1),
        t.last().0 != k ==> table_get(t, k) == table_get(t.drop_last(), k),
{
}

/// Looks a name up in a table.
pub fn table_lookup(t: &Vec<(String, String)>, k: &[char]) -> (r: Option<String>)
    ensures
        match r {
            Some(v) => table_get(pairs_view(t@), k@) == Some(v@),
            None => table_get(pairs_view(t@), k@) is None,
        },
{
    let ghost tv = pairs_view(t@);
    let mut i: usize = t.len();
    assert(tv.take(tv.len() as int) =~= tv);
    while i > 0
        invariant
            i <= t@.len(),
            tv == pairs_view(t@),
            table_get(tv, k@) == table_get(tv.take(i as int), k@),
        decreases i,
    {
        proof {
            lemma_table_get_last(tv.take(i as int), k@);
            assert(tv.take(i as int).drop_last() =~= tv.take(i - 1));
            assert(tv.take(i as int).last() == tv[i - 1]);
        }
        if chars_eq(&chars_of(t[i - 1].0.as_str()), k) {
            return Some(t[i - 1].1.clone());
        }
        i -= 1;
    }
    assert(table_map(tv.take(0)) =~= Map::empty());
    None
}

/// The start of the last occurrence of `pat` in `s`.
pub open spec fn last_occurrence(s: Seq<char>, pat: Seq<char>, n: int) -> Option<int>
    decreases n + 1,
{
    if n < 0 {
        None
    } else if n + pat.len() <= s.len() && s.subrange(n, n + pat.len()) == pat {
        Some(n)
    } else {
        last_occurrence(s, pat, n - 1)
    }
}

/// The resource of an icon definition: the part of its manifest path from
/// the last `icons/` on, under the public prefix; none without `icons/`.
pub open spec fn resource_of(icon_path: Seq<char>) -> Option<Seq<char>> {
    match last_occurrence(icon_path, "icons/"@, icon_path.len() as int) {
        Some(start) => Some(prefix() + icon_path.skip(start)),
        None => None,
    }
}

pub fn icon_resource(icon_path: &str) -> (r: Option<String>)
    ensures
        match r {
            Some(v) => resource_of(icon_path@) == Some(v@),
            None => resource_of(icon_path@) is None,
        },
{
    let s = chars_of(icon_path);
    let pat = chars_of("icons/");
    let n = s.len();
    let mut i: usize = n;
    let ghost p = pat@;
    while i > 0
        invariant
            i <= n,
            n == s@.len(),
            p == pat@,
            p == "icons/"@,
            s@ == icon_path@,
            last_occurrence(s@, p, n as int) == last_occurrence(s@, p, i as int),
        decreases i,
    {
        if pat.len() <= n - i && occurs_at(&s, &pat, i) {
            assert(last_occurrence(s@, p, i as int) == Some(i as int));
            let mut out = chars_of("material-icons/");
            append_chars(&mut out, &slice_chars(&s, i, n));
            assert(s@.subrange(i as int, n as int) =~= s@.skip(i as int));
            assert(out@ == prefix() + s@.skip(i as int));
            return Some(string_of(&out));
        }
        i -= 1;
    }
    if pat.len() <= n && occurs_at(&s, &pat, 0) {
        let mut out = chars_of("material-icons/");
        append_chars(&mut out, &slice_chars(&s, 0, n));
        assert(s@.subrange(0, n as int) =~= s@.skip(0));
        return Some(string_of(&out));
    }
    assert(last_occurrence(s@, p, -1) is None);
    None
}

/// The folder and file tables of one appearance.
pub struct Appearance {
    pub file_extensions: Vec<(String, String)>,
    pub file_names: Vec<(String, String)>,
    pub folder_names: Vec<(String, String)>,
    pub folder_names_expanded: Vec<(String, String)>,
}

/// The resolved theme: icon key to resource, and the tables of each
/// appearance.
pub struct Theme {
    pub icon_paths: Vec<(String, String)>,
    pub dark: Appearance,
    pub light: Appearance,
    pub default_file: String,
    pub default_folder: String,
    pub default_folder_expanded: String,
}

/// `out` holds a resource for each definition that has one, in order.
pub open spec fn resources_of(defs: Seq<(Seq<char>, Seq<char>)>, n: int) -> Seq<(Seq<char>, Seq<char>)>
    decreases n,
{
    if n <= 0 {
        seq![]
    } else {
        match resource_of(defs[n - 1].1) {
            Some(r) => resources_of(defs, n - 1).push((defs[n - 1].0, r)),
            None => resources_of(defs, n - 1),
        }
    }
}

impl Theme {
    /// Builds the theme from the manifest's tables: icon definitions (key
    /// and manifest path), the dark tables, the light overrides, and the
    /// default keys.
    pub fn new(
        definitions: Vec<(String, String)>,
        manifest: Appearance,
        light: Option<Appearance>,
        default_file: String,
        default_folder: String,
        default_folder_expanded: String,
    ) -> (r: Theme)
        ensures
            pairs_view(r.icon_paths@) == resources_of(
                pairs_view(definitions@),
                definitions@.len() as int,
            ),
            pairs_view(r.dark.file_names@) == normalized_of(pairs_view(manifest.file_names@)),
            pairs_view(r.dark.file_extensions@) == normalized_of(
                pairs_view(manifest.file_extensions@),
            ),
            pairs_view(r.dark.folder_names@) == normalized_of(pairs_view(manifest.folder_names@)),
            pairs_view(r.dark.folder_names_expanded@) == normalized_of(
                pairs_view(manifest.folder_names_expanded@),
            ),
            pairs_view(r.light.file_names@) == normalized_of(pairs_view(manifest.file_names@))
                + normalized_of(
                match light {
                    Some(l) => pairs_view(l.file_names@),
                    None => seq![],
                },
            ),
            r.default_file == default_file,
            r.default_folder == default_folder,
            r.default_folder_expanded == default_folder_expanded,
    {
        let ghost dv = pairs_view(definitions@);
        let mut icon_paths: Vec<(String, String)> = Vec::new();
        let mut i: usize = 0;
        while i < definitions.len()
            invariant
                i <= definitions@.len(),
                dv == pairs_view(definitions@),
                pairs_view(icon_paths@) == resources_of(dv, i as int),
            decreases definitions@.len() - i,
        {
            match icon_resource(definitions[i].1.as_str()) {
                Some(res) => {
                    icon_paths.push((definitions[i].0.clone(), res));
                    assert(pairs_view(icon_paths@) =~= resources_of(dv, i + 1));
                },
                None => {},
            }
            i += 1;
        }
        let dark = Appearance {
            file_extensions: normalized(manifest.file_extensions),
            file_names: normalized(manifest.file_names),
            folder_names: normalized(manifest.folder_names),
            folder_names_expanded: normalized(manifest.folder_names_expanded),
        };
        let light = match light {
            Some(l) => Appearance {
                file_extensions: merged(&dark.file_extensions, Some(l.file_extensions)),
                file_names: merged(&dark.file_names, Some(l.file_names)),
                folder_names: merged(&dark.folder_names, Some(l.folder_names)),
                folder_names_expanded: merged(
                    &dark.folder_names_expanded,
                    Some(l.folder_names_expanded),
                ),
            },
            None => Appearance {
                file_extensions: merged(&dark.file_extensions, None),
                file_names: merged(&dark.file_names, None),
                folder_names: merged(&dark.folder_names, None),
                folder_names_expanded: merged(&dark.folder_names_expanded, None),
            },
        };
        Theme { icon_paths, dark, light, default_file, default_folder, default_folder_expanded }
    }
}

/// The icon key of a file by extension: for `foo.test.ts`, `test.ts` then
/// `ts`; the first one the table knows.
pub open spec fn extension_key(exts: Seq<(Seq<char>, Seq<char>)>, parts: Seq<Seq<char>>, i: int) -> Option<
    Seq<char>,
>
    decreases parts.len() - i,
{
    if i >= parts.len() || i < 1 {
        None
    } else {
        match table_get(exts, join_with(parts.skip(i), '.')) {
            Some(k) => Some(k),
            None => extension_key(exts, parts, i + 1),
        }
    }
}

/// The resource for an icon key, else for the default key, else the
/// fallback.
pub open spec fn resolved(
    icons: Seq<(Seq<char>, Seq<char>)>,
    key: Option<Seq<char>>,
    default_key: Seq<char>,
    fallback: Seq<char>,
) -> Seq<char> {
    let k = match key {
        Some(k) => k,
        None => default_key,
    };
    match table_get(icons, k) {
        Some(r) => r,
        None => match table_get(icons, default_key) {
            Some(r) => r,
            None => fallback,
        },
    }
}

/// The resource of a file's icon: by exact lowercased name, then by the
/// longest known extension, then the default.
pub open spec fn file_icon_of(t: Theme, name: Seq<char>, light: bool) -> Seq<char> {
    let lower = lowercase(name);
    let a = if light {
        t.light
    } else {
        t.dark
    };
    let key = match table_get(pairs_view(a.file_names@), lower) {
        Some(k) => Some(k),
        None => extension_key(pairs_view(a.file_extensions@), split_on(lower, '.'), 1),
    };
    resolved(pairs_view(t.icon_paths@), key, t.default_file@, file_fallback())
}

fn join_from(parts: &Vec<Vec<char>>, from: usize, sep: char) -> (r: Vec<char>)
    requires
        from <= parts@.len(),
    ensures
        r@ == join_with(views(parts@).skip(from as int), sep),
{
    let ghost pv = views(parts@).skip(from as int);
    let mut out: Vec<char> = Vec::new();
    let mut i: usize = from;
    assert(pv.take(0) =~= Seq::<Seq<char>>::empty());
    while i < parts.len()
        invariant
            from <= i <= parts@.len(),
            pv == views(parts@).skip(from as int),
            out@ == join_with(pv.take(i - from), sep),
        decreases parts@.len() - i,
    {
        assert(pv.take(i - from + 1).drop_last() =~= pv.take(i - from));
        assert(pv.take(i - from + 1).last() == parts@[i as int]@);
        if i > from {
            out.push(sep);
        } else {
            assert(out@ =~= seq![]);
        }
        append_chars(&mut out, &parts[i]);
        if i == from {
            assert(out@ =~= join_with(pv.take(1), sep));
        }
        i += 1;
    }
    assert(pv.take(parts@.len() - from) =~= pv);
    out
}

fn resolve(icons: &Vec<(String, String)>, key: Option<String>, default_key: &str, fallback: &str) -> (r:
    String)
    ensures
        r@ == resolved(
            pairs_view(icons@),
            match key {
                Some(k) => Some(k@),
                None => None,
            },
            default_key@,
            fallback@,
        ),
{
    let k = match key {
        Some(k) => k,
        None => default_key.to_string(),
    };
    match table_lookup(icons, &chars_of(k.as_str())) {
        Some(r) => r,
        None => match table_lookup(icons, &chars_of(default_key)) {
            Some(r) => r,
            None => fallback.to_string(),
        },
    }
}

/// The resource path for a file's icon; the fallback without a theme.
pub fn file_icon(theme: Option<&Theme>, name: &str, light: bool) -> (r: String)
    ensures
        r@ == (match theme {
            Some(t) => file_icon_of(*t, name@, light),
            None => file_fallback(),
        }),
{
    let t = match theme {
        Some(t) => t,
        None => return "material-icons/icons/file.svg".to_string(),
    };
    let lower = to_lowercase(&chars_of(name));
    let a = if light {
        &t.light
    } else {
        &t.dark
    };
    let key = match table_lookup(&a.file_names, &lower) {
        Some(k) => Some(k),
        None => {
            let parts = split_char(&lower, '.');
            let ghost pv = views(parts@);
            assert(pv =~= split_on(lower@, '.'));
            let mut found: Option<String> = None;
            let mut i: usize = 1;
            while i < parts.len() && found.is_none()
                invariant
                    1 <= i,
                    pv == views(parts@),
                    found is None ==> extension_key(pairs_view(a.file_extensions@), pv, 1)
                        == extension_key(pairs_view(a.file_extensions@), pv, i as int),
                    found matches Some(k) ==> extension_key(pairs_view(a.file_extensions@), pv, 1)
                        == Some(k@),
                decreases parts@.len() - i + (if found is None {
                    1int
                } else {
                    0int
                }),
            {
                let ext = join_from(&parts, i, '.');
                match table_lookup(&a.file_extensions, &ext) {
                    Some(k) => {
                        found = Some(k);
                    },
                    None => {
                        i += 1;
                    },
                }
            }
            found
        },
    };
    resolve(&t.icon_paths, key, t.default_file.as_str(), "material-icons/icons/file.svg")
}

/// The resource of a folder's icon, by open state: by exact lowercased
/// name, then the appearance default.
pub open spec fn folder_icon_of(t: Theme, name: Seq<char>, expanded: bool, light: bool) -> Seq<char> {
    let lower = lowercase(name);
    let a = if light {
        t.light
    } else {
        t.dark
    };
    if expanded {
        resolved(
            pairs_view(t.icon_paths@),
            table_get(pairs_view(a.folder_names_expanded@), lower),
            t.default_folder_expanded@,
            folder_open_fallback(),
        )
    } else {
        resolved(
            pairs_view(t.icon_paths@),
            table_get(pairs_view(a.folder_names@), lower),
            t.default_folder@,
            folder_fallback(),
        )
    }
}

/// The resource path for a folder's icon; the fallback without a theme.
pub fn folder_icon(theme: Option<&Theme>, name: &str, expanded: bool, light: bool) -> (r: String)
    ensures
        r@ == (match theme {
            Some(t) => folder_icon_of(*t, name@, expanded, light),
            None => if expanded {
                folder_open_fallback()
            } else {
                folder_fallback()
            },
        }),
{
    let t = match theme {
        Some(t) => t,
        None => {
            return if expanded {
                "material-icons/icons/folder-open.svg".to_string()
            } else {
                "material-icons/icons/folder.svg".to_string()
            };
        },
    };
    let lower = to_lowercase(&chars_of(name));
    let a = if light {
        &t.light
    } else {
        &t.dark
    };
    if expanded {
        let key = table_lookup(&a.folder_names_expanded, &lower);
        resolve(
            &t.icon_paths,
            key,
            t.default_folder_expanded.as_str(),
            "material-icons/icons/folder-open.svg",
        )
    } else {
        let key = table_lookup(&a.folder_names, &lower);
        resolve(&t.icon_paths, key, t.default_folder.as_str(), "material-icons/icons/folder.svg")
    }
}

} // verus!
