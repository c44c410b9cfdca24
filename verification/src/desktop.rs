//! Application-descriptor reading: line-oriented parsing of `Name=` and
//! `Icon=` keys, and resolution of an icon key against candidate filenames.

use vstd::prelude::*;

verus! {

use vstd::string::StrSliceExecFns;
use crate::text::{chars_of, chars_prefix, spec_split, split_char};

/// A line with any single trailing carriage return removed.
pub open spec fn strip_cr(l: Seq<char>) -> Seq<char> {
    if l.len() > 0 && l.last() == '\r' {
        l.drop_last()
    } else {
        l
    }
}

/// The lines of a text: pieces between `\n` separators, without a final
/// empty piece after a trailing `\n`, each stripped of a trailing `\r`.
pub open spec fn spec_lines(s: Seq<char>) -> Seq<Seq<char>> {
    if s.len() == 0 {
        Seq::<Seq<char>>::empty()
    } else {
        let raw = spec_split(s, '\n');
        let pieces = if s.last() == '\n' {
            raw.drop_last()
        } else {
            raw
        };
        pieces.map_values(|l: Seq<char>| strip_cr(l))
    }
}

/// The first of `ls` beginning with `pfx`, if any.
pub open spec fn first_with_prefix(ls: Seq<Seq<char>>, pfx: Seq<char>) -> Option<Seq<char>>
    decreases ls.len(),
{
    if ls.len() == 0 {
        None
    } else if pfx.is_prefix_of(ls[0]) {
        Some(ls[0])
    } else {
        first_with_prefix(ls.drop_first(), pfx)
    }
}

/// The display name a descriptor supplies: everything after the first `=`
/// of the first line beginning `Name=`.
pub open spec fn spec_desktop_name(s: Seq<char>) -> Option<Seq<char>> {
    match first_with_prefix(spec_lines(s), "Name="@) {
        Some(l) => Some(l.skip("Name="@.len() as int)),
        None => None,
    }
}

/// The icon key a descriptor supplies: everything after the last `=` of the
/// first line beginning `Icon=`.
pub open spec fn spec_desktop_icon(s: Seq<char>) -> Option<Seq<char>> {
    match first_with_prefix(spec_lines(s), "Icon="@) {
        Some(l) => match l.index_of_last('=') {
            Some(i) => Some(l.skip(i + 1)),
            None => Some(l),
        },
        None => None,
    }
}

/// What a descriptor parse yields.
#[derive(Debug, PartialEq)]
pub struct DesktopInfo {
    /// Display name, when a `Name=` line was present.
    pub name: Option<String>,
    /// Icon key, when an `Icon=` line was present.
    pub icon_key: Option<String>,
}

/// Parses an application-descriptor text: the first `Name=` line supplies
/// the display name, the first `Icon=` line supplies an icon key.
pub fn parse_desktop(content: &str) -> (r: DesktopInfo)
    ensures
        match spec_desktop_name(content@) {
            Some(v) => r.name is Some && r.name->0@ == v,
            None => r.name is None,
        },
        match spec_desktop_icon(content@) {
            Some(v) => r.icon_key is Some && r.icon_key->0@ == v,
            None => r.icon_key is None,
        },
{
    let pieces = lines_of(content);
    let ghost ls = spec_lines(content@);
    let n = pieces.len();
    let mut name: Option<String> = None;
    let mut icon: Option<String> = None;
    let mut i: usize = 0;
    proof {
        assert(ls.skip(0) =~= ls);
    }
    while i < n
        invariant
            i <= n,
            n == pieces@.len(),
            pieces.deep_view() == ls,
            match name {
                Some(v) => first_with_prefix(ls, "Name="@) is Some && v@ == first_with_prefix(
                    ls,
                    "Name="@,
                )->0.skip("Name="@.len() as int),
                None => first_with_prefix(ls, "Name="@) == first_with_prefix(
                    ls.skip(i as int),
                    "Name="@,
                ),
            },
            match icon {
                Some(v) => ({
                    let fl = first_with_prefix(ls, "Icon="@);
                    &&& fl is Some
                    &&& match fl->0.index_of_last('=') {
                        Some(k) => v@ == fl->0.skip(k + 1),
                        None => v@ == fl->0,
                    }
                }),
                None => first_with_prefix(ls, "Icon="@) == first_with_prefix(
                    ls.skip(i as int),
                    "Icon="@,
                ),
            },
        decreases n - i,
    {
        let line = &pieces[i];
        proof {
            let tail = ls.skip(i as int);
            assert(tail[0] == ls[i as int]);
            assert(tail.drop_first() =~= ls.skip(i + 1));
            assert(pieces@[i as int]@ == ls[i as int]);
        }
        if name.is_none() && str_starts_with_str(line, "Name=") {
            proof {
                reveal_strlit("Name=");
            }
            let lv = chars_of(line.as_str());
            let value = line.as_str().substring_char(5, lv.len());
            name = Some(value.to_owned());
        }
        if icon.is_none() && str_starts_with_str(line, "Icon=") {
            let lv = chars_of(line.as_str());
            proof {
                lv@.index_of_last_ensures('=');
            }
            let value = match crate::text::find_last(&lv, '=') {
                Some(k) => {
                    proof {
                        assert(k < lv@.len());
                    }
                    line.as_str().substring_char(k + 1, lv.len())
                },
                None => line.as_str(),
            };
            icon = Some(value.to_owned());
        }
        i = i + 1;
    }
    proof {
        assert(ls.skip(n as int) =~= Seq::<Seq<char>>::empty());
    }
    DesktopInfo { name, icon_key: icon }
}

/// Prefix test between a `String` and a literal.
fn str_starts_with_str(s: &String, p: &str) -> (r: bool)
    ensures
        r == p@.is_prefix_of(s@),
{
    crate::text::str_starts_with(s.as_str(), p)
}

/// Splits a text into its lines, as [`spec_lines`] describes.
pub fn lines_of(content: &str) -> (r: Vec<String>)
    ensures
        r.deep_view() == spec_lines(content@),
{
    let cv = chars_of(content);
    if cv.len() == 0 {
        let r: Vec<String> = Vec::new();
        proof {
            assert(r.deep_view() =~= spec_lines(content@));
        }
        return r;
    }
    let mut pieces = split_char(content, '\n');
    let ghost raw = spec_split(content@, '\n');
    if cv[cv.len() - 1] == '\n' {
        proof {
            crate::text::lemma_split_len(content@, '\n');
        }
        pieces.pop();
        proof {
            assert(pieces.deep_view() =~= raw.drop_last());
        }
    }
    let ghost kept = pieces.deep_view();
    let n = pieces.len();
    let mut out: Vec<String> = Vec::new();
    let mut i: usize = 0;
    proof {
        assert(out.deep_view() =~= kept.subrange(0, 0).map_values(|l: Seq<char>| strip_cr(l)));
    }
    while i < n
        invariant
            i <= n,
            n == pieces@.len(),
            pieces.deep_view() == kept,
            out.deep_view() =~= kept.subrange(0, i as int).map_values(
                |l: Seq<char>| strip_cr(l),
            ),
        decreases n - i,
    {
        let lv = chars_of(pieces[i].as_str());
        proof {
            assert(pieces@[i as int]@ == kept[i as int]);
        }
        let stripped = if lv.len() > 0 && lv[lv.len() - 1] == '\r' {
            pieces[i].as_str().substring_char(0, lv.len() - 1).to_owned()
        } else {
            pieces[i].clone()
        };
        proof {
            if lv@.len() > 0 && lv@[lv@.len() - 1] == '\r' {
                assert(kept[i as int].subrange(0, kept[i as int].len() - 1) =~= strip_cr(
                    kept[i as int],
                ));
            }
            assert(stripped@ == strip_cr(kept[i as int]));
        }
        let ghost old_out = out.deep_view();
        out.push(stripped);
        proof {
            assert(out.deep_view() =~= old_out.push(strip_cr(kept[i as int])));
            assert(out.deep_view() =~= kept.subrange(0, i + 1).map_values(
                |l: Seq<char>| strip_cr(l),
            ));
        }
        i = i + 1;
    }
    proof {
        assert(kept.subrange(0, n as int) =~= kept);
    }
    out
}

/// The first of `names` beginning with `key`, if any.
pub open spec fn spec_pick_icon(names: Seq<Seq<char>>, key: Seq<char>) -> Option<int>
    decreases names.len(),
{
    if names.len() == 0 {
        None
    } else if key.is_prefix_of(names[0]) {
        Some(0int)
    } else {
        match spec_pick_icon(names.drop_first(), key) {
            Some(i) => Some(i + 1),
            None => None,
        }
    }
}

/// Picks the first filename beginning with the icon key, handing back its
/// index in the candidate list.
pub fn pick_icon(key: &str, names: &Vec<String>) -> (r: Option<usize>)
    ensures
        match spec_pick_icon(names.deep_view(), key@) {
            Some(i) => r is Some && r->0 == i,
            None => r is None,
        },
{
    let kv = chars_of(key);
    let ghost ns = names.deep_view();
    let n = names.len();
    let mut i: usize = 0;
    proof {
        assert(ns.skip(0) =~= ns);
    }
    while i < n
        invariant
            i <= n,
            n == names@.len(),
            names.deep_view() == ns,
            kv@ == key@,
            spec_pick_icon(ns, key@) == match spec_pick_icon(ns.skip(i as int), key@) {
                Some(j) => Some(j + i),
                None => None::<int>,
            },
        decreases n - i,
    {
        let nv = chars_of(names[i].as_str());
        proof {
            let tail = ns.skip(i as int);
            assert(tail[0] == ns[i as int]);
            assert(tail.drop_first() =~= ns.skip(i + 1));
            assert(names@[i as int]@ == ns[i as int]);
        }
        if chars_prefix(&nv, &kv) {
            return Some(i);
        }
        i = i + 1;
    }
    proof {
        assert(ns.skip(n as int) =~= Seq::<Seq<char>>::empty());
    }
    None
}

} // verus!
