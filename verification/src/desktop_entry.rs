//! Desktop entry parsing: the key-value fields of a `[Desktop Entry]`
//! section, the derived presentation fields, and the launch command with
//! field codes stripped.

use vstd::prelude::*;
use vstd::pervasive::VecAdditionalExecFns;
use crate::text::{
    trim_spec, trim_str, find_char, split_char, split_by, split_once_char, strs_view, str_eq,
    replace2, tokens_of, join_spaced, str_to_chars, replace_pair, normalize_spaces,
};

verus! {

/// The key-value pairs as plain values.
pub open spec fn fields_view(fs: Seq<(String, String)>) -> Seq<(Seq<char>, Seq<char>)> {
    fs.map_values(|e: (String, String)| (e.0@, e.1@))
}

/// Index of the first pair under `k`, or -1.
pub open spec fn kv_find(fs: Seq<(Seq<char>, Seq<char>)>, k: Seq<char>) -> int
    decreases fs.len(),
{
    if fs.len() == 0 {
        -1
    } else if fs[0].0 == k {
        0
    } else {
        let r = kv_find(fs.drop_first(), k);
        if r == -1 {
            -1
        } else {
            r + 1
        }
    }
}

/// `kv_find` finds the first pair under `k`, and -1 means there is none.
pub proof fn lemma_kv_find(fs: Seq<(Seq<char>, Seq<char>)>, k: Seq<char>)
    ensures
        kv_find(fs, k) == -1 ==> forall|i: int| 0 <= i < fs.len() ==> fs[i].0 != k,
        kv_find(fs, k) != -1 ==> 0 <= kv_find(fs, k) < fs.len() && fs[kv_find(fs, k)].0 == k
            && forall|i: int| 0 <= i < kv_find(fs, k) ==> fs[i].0 != k,
    decreases fs.len(),
{
    if fs.len() > 0 && fs[0].0 != k {
        let t = fs.drop_first();
        lemma_kv_find(t, k);
        if kv_find(t, k) == -1 {
            assert forall|i: int| 0 <= i < fs.len() implies fs[i].0 != k by {
                if i > 0 {
                    assert(t[i - 1] == fs[i]);
                }
            }
        } else {
            let e = kv_find(fs, k);
            assert(t[e - 1] == fs[e]);
            assert forall|i: int| 0 <= i < e implies fs[i].0 != k by {
                if i > 0 {
                    assert(t[i - 1] == fs[i]);
                }
            }
        }
    }
}

/// The value stored under `k`, if any.
pub open spec fn kv_lookup(fs: Seq<(Seq<char>, Seq<char>)>, k: Seq<char>) -> Option<Seq<char>> {
    if kv_find(fs, k) >= 0 {
        Some(fs[kv_find(fs, k)].1)
    } else {
        None
    }
}

/// Store `v` under `k`: replace the first pair under that key, else append.
pub open spec fn kv_upsert(
    fs: Seq<(Seq<char>, Seq<char>)>,
    k: Seq<char>,
    v: Seq<char>,
) -> Seq<(Seq<char>, Seq<char>)> {
    if kv_find(fs, k) >= 0 {
        fs.update(kv_find(fs, k), (k, v))
    } else {
        fs.push((k, v))
    }
}

/// One line's effect on the parse state (inside-the-section flag and the
/// fields): blank lines and comments do nothing; a `[...]` header tells
/// whether the `[Desktop Entry]` section begins; a `key=value` line inside
/// the section stores the trimmed pair; anything else is ignored.
pub open spec fn line_step(
    st: (bool, Seq<(Seq<char>, Seq<char>)>),
    line: Seq<char>,
) -> (bool, Seq<(Seq<char>, Seq<char>)>) {
    let t = trim_spec(line);
    if t.len() == 0 || t[0] == '#' {
        st
    } else if t[0] == '[' && t.last() == ']' {
        ((t == "[Desktop Entry]"@), st.1)
    } else if !st.0 {
        st
    } else if find_char(t, '=') >= 0 {
        (st.0, kv_upsert(st.1, trim_spec(t.take(find_char(t, '='))), trim_spec(t.skip(find_char(t, '=') + 1))))
    } else {
        st
    }
}

/// The parse state after a list of lines, starting outside any section.
pub open spec fn parse_lines(lines: Seq<Seq<char>>) -> (bool, Seq<(Seq<char>, Seq<char>)>)
    decreases lines.len(),
{
    if lines.len() == 0 {
        (false, Seq::empty())
    } else {
        line_step(parse_lines(lines.drop_last()), lines.last())
    }
}

/// The `[Desktop Entry]` fields of a whole file text.
pub open spec fn spec_fields(content: Seq<char>) -> Seq<(Seq<char>, Seq<char>)> {
    parse_lines(split_char(content, '\n')).1
}

/// An optional string as an optional plain value.
pub open spec fn opt_view(o: Option<String>) -> Option<Seq<char>> {
    match o {
        Some(s) => Some(s@),
        None => None,
    }
}

/// The launch command with the field codes `%u %U %f %F %i %c %k` removed,
/// `%%` collapsed to `%`, and whitespace normalized to single spaces.
pub open spec fn spec_exec_command(s: Seq<char>) -> Seq<char> {
    let s1 = replace2(s, '%', 'u', Seq::empty());
    let s2 = replace2(s1, '%', 'U', Seq::empty());
    let s3 = replace2(s2, '%', 'f', Seq::empty());
    let s4 = replace2(s3, '%', 'F', Seq::empty());
    let s5 = replace2(s4, '%', 'i', Seq::empty());
    let s6 = replace2(s5, '%', 'c', Seq::empty());
    let s7 = replace2(s6, '%', 'k', Seq::empty());
    let s8 = replace2(s7, '%', '%', seq!['%']);
    join_spaced(tokens_of(s8))
}

/// A parsed desktop file: the fields of its `[Desktop Entry]` section and
/// the derived presentation values.
pub struct DesktopEntry {
    /// Where the file lives.
    pub path: String,
    /// The application name.
    pub name: Option<String>,
    /// The generic name, such as a program category phrase.
    pub generic_name: Option<String>,
    /// The description.
    pub comment: Option<String>,
    /// The icon name or path.
    pub icon: Option<String>,
    /// The launch command, field codes included.
    pub exec_line: Option<String>,
    /// Whether this is a terminal application.
    pub terminal: bool,
    /// The semicolon-separated categories, empty pieces dropped.
    pub categories: Vec<String>,
    /// Whether the entry asks not to be shown.
    pub no_display: bool,
    /// Every key-value pair of the section, first occurrence first.
    pub fields: Vec<(String, String)>,
}

/// A valid, visible application entry: not hidden, with a name and a
/// command, and of type Application.
pub open spec fn spec_visible(e: DesktopEntry) -> bool {
    !e.no_display && e.name is Some && e.exec_line is Some && kv_lookup(
        fields_view(e.fields@),
        "Type"@,
    ) == Some("Application"@)
}

/// Position of the first pair stored under `key`.
fn find_field(fields: &Vec<(String, String)>, key: &str) -> (r: Option<usize>)
    ensures
        match r {
            Some(i) => i < fields@.len() && kv_find(fields_view(fields@), key@) == i as int,
            None => kv_find(fields_view(fields@), key@) == -1,
        },
{
    let ghost fv = fields_view(fields@);
    let n: usize = fields.len();
    let mut i: usize = 0;
    while i < n
        invariant
            n == fields@.len(),
            fv == fields_view(fields@),
            i <= n,
            forall|k: int| 0 <= k < i ==> fv[k].0 != key@,
        decreases n - i,
    {
        if str_eq(fields[i].0.as_str(), key) {
            proof {
                lemma_kv_find(fv, key@);
                assert(fv[i as int].0 == key@);
            }
            return Some(i);
        }
        i += 1;
    }
    proof {
        lemma_kv_find(fv, key@);
    }
    None
}

/// The value stored under `key`, if any.
fn lookup_field<'a>(fields: &'a Vec<(String, String)>, key: &str) -> (r: Option<&'a String>)
    ensures
        match r {
            Some(s) => kv_lookup(fields_view(fields@), key@) == Some(s@),
            None => kv_lookup(fields_view(fields@), key@) == None::<Seq<char>>,
        },
{
    match find_field(fields, key) {
        Some(i) => Some(&fields[i].1),
        None => None,
    }
}

/// The value stored under `key`, cloned, if any.
fn lookup_field_owned(fields: &Vec<(String, String)>, key: &str) -> (r: Option<String>)
    ensures
        opt_view(r) == kv_lookup(fields_view(fields@), key@),
{
    match lookup_field(fields, key) {
        Some(s) => Some(s.clone()),
        None => None,
    }
}

/// Store `v` under `k`, replacing the first pair under that key.
fn upsert_field(fields: &mut Vec<(String, String)>, k: &str, v: &str)
    ensures
        fields_view(final(fields)@) == kv_upsert(fields_view(old(fields)@), k@, v@),
{
    let ghost pre = fields_view(fields@);
    match find_field(fields, k) {
        Some(i) => {
            fields.set(i, (k.to_owned(), v.to_owned()));
            proof {
                assert(fields_view(fields@) =~= pre.update(i as int, (k@, v@)));
            }
        },
        None => {
            fields.push((k.to_owned(), v.to_owned()));
            proof {
                assert(fields_view(fields@) =~= pre.push((k@, v@)));
            }
        },
    }
}

impl DesktopEntry {
    /// Parse a desktop file's text: collect the `[Desktop Entry]` fields and
    /// derive every presentation value from them.
    pub fn parse_content(path: String, content: &str) -> (r: DesktopEntry)
        ensures
            r.path == path,
            fields_view(r.fields@) == spec_fields(content@),
            opt_view(r.name) == kv_lookup(spec_fields(content@), "Name"@),
            opt_view(r.generic_name) == kv_lookup(spec_fields(content@), "GenericName"@),
            opt_view(r.comment) == kv_lookup(spec_fields(content@), "Comment"@),
            opt_view(r.icon) == kv_lookup(spec_fields(content@), "Icon"@),
            opt_view(r.exec_line) == kv_lookup(spec_fields(content@), "Exec"@),
            r.terminal == (kv_lookup(spec_fields(content@), "Terminal"@) == Some("true"@)),
            r.no_display == (kv_lookup(spec_fields(content@), "NoDisplay"@) == Some("true"@)),
            strs_view(r.categories@) == (match kv_lookup(spec_fields(content@), "Categories"@) {
                Some(v) => split_char(v, ';').filter(|p: Seq<char>| p.len() > 0),
                None => Seq::<Seq<char>>::empty(),
            }),
    {
        let lines = split_by(content, '\n');
        let ghost lv = strs_view(lines@);
        let mut fields: Vec<(String, String)> = Vec::new();
        let mut in_section: bool = false;
        let n: usize = lines.len();
        let mut i: usize = 0;
        proof {
            assert(lv.take(0) =~= Seq::<Seq<char>>::empty());
            assert(fields_view(fields@) =~= Seq::<(Seq<char>, Seq<char>)>::empty());
        }
        while i < n
            invariant
                n == lines@.len(),
                lv == strs_view(lines@),
                i <= n,
                (in_section, fields_view(fields@)) == parse_lines(lv.take(i as int)),
            decreases n - i,
        {
            proof {
                assert(lv.take(i + 1).drop_last() =~= lv.take(i as int));
                assert(lv.take(i + 1).last() == lv[i as int]);
                assert(lv[i as int] == lines@[i as int]@);
            }
            let t = trim_str(lines[i].as_str());
            let tlen: usize = t.unicode_len();
            if tlen == 0 || t.get_char(0) == '#' {
            } else if t.get_char(0) == '[' && t.get_char(tlen - 1) == ']' {
                in_section = str_eq(t, "[Desktop Entry]");
            } else if in_section {
                match split_once_char(t, '=') {
                    Some(kv) => {
                        let key = trim_str(kv.0);
                        let value = trim_str(kv.1);
                        upsert_field(&mut fields, key, value);
                    },
                    None => {
                    },
                }
            }
            i += 1;
        }
        proof {
            assert(lv.take(n as int) =~= lv);
            assert(split_char(content@, '\n') == lv);
        }
        let name = lookup_field_owned(&fields, "Name");
        let generic_name = lookup_field_owned(&fields, "GenericName");
        let comment = lookup_field_owned(&fields, "Comment");
        let icon = lookup_field_owned(&fields, "Icon");
        let exec_line = lookup_field_owned(&fields, "Exec");
        let terminal: bool = match lookup_field(&fields, "Terminal") {
            Some(v) => str_eq(v.as_str(), "true"),
            None => false,
        };
        let no_display: bool = match lookup_field(&fields, "NoDisplay") {
            Some(v) => str_eq(v.as_str(), "true"),
            None => false,
        };
        let mut categories: Vec<String> = Vec::new();
        match lookup_field(&fields, "Categories") {
            Some(v) => {
                let pieces = split_by(v.as_str(), ';');
                let m: usize = pieces.len();
                let mut j: usize = 0;
                proof {
                    reveal(Seq::filter);
                    assert(strs_view(pieces@).take(0) =~= Seq::<Seq<char>>::empty());
                    assert(strs_view(categories@) =~= Seq::<Seq<char>>::empty());
                }
                while j < m
                    invariant
                        m == pieces@.len(),
                        j <= m,
                        strs_view(categories@) == strs_view(pieces@).take(j as int).filter(
                            |p: Seq<char>| p.len() > 0,
                        ),
                    decreases m - j,
                {
                    proof {
                        reveal(Seq::filter);
                        let pv = strs_view(pieces@);
                        assert(pv.take(j + 1).drop_last() =~= pv.take(j as int));
                        assert(pv.take(j + 1).last() == pieces@[j as int]@);
                    }
                    let ghost cpre = strs_view(categories@);
                    if !pieces[j].as_str().is_empty() {
                        let p = pieces[j].clone();
                        categories.push(p);
                        proof {
                            assert(strs_view(categories@) =~= cpre.push(pieces@[j as int]@));
                        }
                    }
                    j += 1;
                }
                proof {
                    assert(strs_view(pieces@).take(m as int) =~= strs_view(pieces@));
                }
            },
            None => {
            },
        }
        DesktopEntry {
            path,
            name,
            generic_name,
            comment,
            icon,
            exec_line,
            terminal,
            categories,
            no_display,
            fields,
        }
    }

    /// The launch command with field codes stripped and whitespace
    /// normalized, when the entry has one.
    pub fn exec_command(&self) -> (r: Option<String>)
        ensures
            r is Some <==> self.exec_line is Some,
            r is Some ==> r->0@ == spec_exec_command(self.exec_line->0@),
    {
        match &self.exec_line {
            Some(e) => {
                let chars = str_to_chars(e.as_str());
                let s1 = replace_pair(&chars, '%', 'u', None);
                let s2 = replace_pair(&s1, '%', 'U', None);
                let s3 = replace_pair(&s2, '%', 'f', None);
                let s4 = replace_pair(&s3, '%', 'F', None);
                let s5 = replace_pair(&s4, '%', 'i', None);
                let s6 = replace_pair(&s5, '%', 'c', None);
                let s7 = replace_pair(&s6, '%', 'k', None);
                let s8 = replace_pair(&s7, '%', '%', Some('%'));
                Some(normalize_spaces(&s8))
            },
            None => None,
        }
    }

    /// Whether this is a valid, visible application entry: not hidden, with
    /// a name and a command, and of type Application.
    pub fn is_visible_app(&self) -> (r: bool)
        ensures
            r == spec_visible(*self),
    {
        !self.no_display && self.name.is_some() && self.exec_line.is_some() && (match lookup_field(
            &self.fields,
            "Type",
        ) {
            Some(t) => str_eq(t.as_str(), "Application"),
            None => false,
        })
    }
}

} // verus!
