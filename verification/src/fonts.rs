//! Choice of the editor and interface fonts.

use vstd::prelude::*;
use crate::strings::{str_eq, name_le, name_le_exec, lemma_name_le_total, lemma_name_le_trans};
use crate::settings::{default_ui_font, default_editor_font};

verus! {

/// True when `name` occurs in `available`.
pub open spec fn font_listed(available: Seq<String>, name: Seq<char>) -> bool {
    exists|j: int| 0 <= j < available.len() && (#[trigger] available[j])@ == name
}

/// Fonts tried first, in order of preference, for both the interface and the editor.
pub const PREFERRED_UI_FONTS: [&'static str; 11] = [
    "Fira Code",
    "JetBrains Mono",
    "Ubuntu Mono",
    "Cascadia Mono",
    "Segoe UI",
    "Roboto Mono",
    "Roboto",
    "Menlo",
    "Consolas",
    "Liberation Mono",
    "Monaco",
];

/// The same preferences for the editor.
pub const PREFERRED_EDITOR_FONTS: [&'static str; 11] = PREFERRED_UI_FONTS;

/// True when `available` holds a font named `name`.
fn is_available(available: &[String], name: &str) -> (res: bool)
    ensures
        res == font_listed(available@, name@),
{
    let mut j: usize = 0;
    while j < available.len()
        invariant
            j <= available@.len(),
            forall|k: int| 0 <= k < j ==> (#[trigger] available@[k])@ != name@,
        decreases available@.len() - j,
    {
        if str_eq(available[j].as_str(), name) {
            assert(available@[j as int]@ == name@);
            return true;
        }
        j = j + 1;
    }
    false
}

/// The first of `preferences` that `available_fonts` holds, if any.
pub fn detect_best_font(available_fonts: &[String], preferences: &[&str]) -> (res: Option<String>)
    ensures
        match res {
            Some(name) => exists|i: int|
                0 <= i < preferences@.len()
                && name@ == (#[trigger] preferences@[i])@
                && font_listed(available_fonts@, preferences@[i]@)
                && forall|k: int| 0 <= k < i ==> !font_listed(available_fonts@, (#[trigger] preferences@[k])@),
            None => forall|i: int| 0 <= i < preferences@.len()
                ==> !font_listed(available_fonts@, (#[trigger] preferences@[i])@),
        },
{
    let mut i: usize = 0;
    while i < preferences.len()
        invariant
            i <= preferences@.len(),
            forall|k: int| 0 <= k < i ==> !font_listed(available_fonts@, (#[trigger] preferences@[k])@),
        decreases preferences@.len() - i,
    {
        if is_available(available_fonts, preferences[i]) {
            let name = preferences[i].to_owned();
            assert(name@ == preferences@[i as int]@);
            return Some(name);
        }
        i = i + 1;
    }
    None
}

/// True when `font_name` names one of the built-in fonts, which are not loaded from the system.
pub fn is_builtin_font(font_name: &str) -> (res: bool)
    ensures
        res == crate::strings::contains_seq(font_name@, "(Default)"@),
{
    crate::strings::str_contains(font_name, "(Default)")
}

/// True when the names are in order, none of them twice.
pub open spec fn strictly_sorted(v: Seq<String>) -> bool {
    forall|i: int, j: int| 0 <= i < j < v.len() ==> name_le((#[trigger] v[i])@, (#[trigger] v[j])@) && v[i]@ != v[j]@
}

/// Adds `name` to the ordered list `v` unless it is there already.
fn insert_unique(v: &mut Vec<String>, name: String)
    requires
        strictly_sorted(old(v)@),
    ensures
        strictly_sorted(final(v)@),
        forall|n: Seq<char>| #![trigger font_listed(final(v)@, n)] font_listed(final(v)@, n) <==> (font_listed(old(v)@, n) || n == name@),
{
    let mut p: usize = 0;
    while p < v.len() && name_le_exec(v[p].as_str(), name.as_str()) && !str_eq(v[p].as_str(), name.as_str())
        invariant
            p <= v@.len(),
            v@ == old(v)@,
            forall|k: int| 0 <= k < p ==> name_le((#[trigger] v@[k])@, name@) && v@[k]@ != name@,
        decreases v@.len() - p,
    {
        p = p + 1;
    }
    if p < v.len() && str_eq(v[p].as_str(), name.as_str()) {
        assert forall|n: Seq<char>| #![trigger font_listed(v@, n)] font_listed(v@, n) <==> (font_listed(old(v)@, n) || n == name@) by {
            if n == name@ {
                assert(v@[p as int]@ == n);
            }
        }
        return;
    }
    let ghost before = v@;
    let ghost nm = name@;
    proof {
        if p < before.len() {
            lemma_name_le_total(before[p as int]@, nm);
            assert(name_le(nm, before[p as int]@) && nm != before[p as int]@);
        }
    }
    v.insert(p, name);
    proof {
        assert forall|j: int| p < j < v@.len() implies name_le(nm, #[trigger] v@[j]@) && nm != v@[j]@ by {
            assert(v@[j] == before[j - 1]);
            if j - 1 > p {
                lemma_name_le_trans(nm, before[p as int]@, before[j - 1]@);
                if nm == before[j - 1]@ {
                    lemma_name_le_antisym(nm, before[p as int]@);
                }
            }
        }
        assert forall|i: int, j: int| 0 <= i < j < v@.len() implies name_le((#[trigger] v@[i])@, (#[trigger] v@[j])@)
            && v@[i]@ != v@[j]@ by {
            if j < p {
            } else if j == p {
            } else if i < p {
                assert(v@[j] == before[j - 1]);
                assert(v@[i] == before[i]);
                assert(name_le(nm, v@[j]@) && nm != v@[j]@);
                lemma_name_le_trans(before[i]@, nm, before[j - 1]@);
                if before[i]@ == before[j - 1]@ {
                    lemma_name_le_antisym(before[i]@, nm);
                }
            } else if i == p {
            } else {
                assert(v@[i] == before[i - 1]);
                assert(v@[j] == before[j - 1]);
            }
        }
        assert forall|n: Seq<char>| #![trigger font_listed(v@, n)] font_listed(v@, n) <==> (font_listed(old(v)@, n) || n == nm) by {
            if font_listed(before, n) {
                let k = choose|k: int| 0 <= k < before.len() && (#[trigger] before[k])@ == n;
                if k < p {
                    assert(v@[k] == before[k]);
                } else {
                    assert(v@[k + 1] == before[k]);
                }
            }
            if n == nm {
                assert(v@[p as int]@ == n);
            }
            if font_listed(v@, n) {
                let k = choose|k: int| 0 <= k < v@.len() && (#[trigger] v@[k])@ == n;
                if k < p {
                    assert(v@[k] == before[k]);
                } else if k > p {
                    assert(v@[k] == before[k - 1]);
                }
            }
        }
    }
}

/// Two names that each come no later than the other are the same.
proof fn lemma_name_le_antisym(a: Seq<char>, b: Seq<char>)
    requires
        name_le(a, b),
        name_le(b, a),
    ensures
        a == b,
    decreases a.len(),
{
    if a.len() > 0 && b.len() > 0 {
        if a[0] == b[0] {
            lemma_name_le_antisym(a.drop_first(), b.drop_first());
            assert(a =~= seq![a[0]] + a.drop_first());
            assert(b =~= seq![b[0]] + b.drop_first());
        } else {
            vstd::utf8::char_u32_cast(a[0], a[0] as u32);
            vstd::utf8::char_u32_cast(b[0], b[0] as u32);
        }
    } else if a.len() == 0 && b.len() == 0 {
        assert(a =~= b);
    }
}

/// The fonts offered for choice: the two built-in ones and each family the
/// system has, every name once, in order.
pub fn system_font_list(families: Vec<String>) -> (res: Vec<String>)
    ensures
        strictly_sorted(res@),
        forall|n: Seq<char>| font_listed(res@, n) <==> (n == "Proportional (Default)"@ || n == "Monospace (Default)"@
            || font_listed(families@, n)),
{
    let mut res: Vec<String> = Vec::new();
    insert_unique(&mut res, default_ui_font());
    insert_unique(&mut res, default_editor_font());
    let ghost all = families@;
    let mut rest = families;
    assert(all.len() == rest.len());
    assert(rest@ =~= all.skip(0));
    assert(all.take(0) =~= Seq::<String>::empty());
    let mut k: usize = 0;
    while rest.len() > 0
        invariant
            k + rest@.len() == all.len(),
            all.len() <= usize::MAX,
            rest@ == all.skip(k as int),
            strictly_sorted(res@),
            forall|n: Seq<char>| font_listed(res@, n) <==> (n == "Proportional (Default)"@ || n == "Monospace (Default)"@
                || font_listed(all.take(k as int), n)),
        decreases rest@.len(),
    {
        let ghost before = res@;
        let f = rest.remove(0);
        proof {
            assert(f == all[k as int]);
            assert(rest@ =~= all.skip(k + 1));
        }
        insert_unique(&mut res, f);
        proof {
            assert forall|n: Seq<char>| font_listed(res@, n) <==> (n == "Proportional (Default)"@
                || n == "Monospace (Default)"@ || font_listed(all.take(k + 1), n)) by {
                if font_listed(all.take(k as int), n) {
                    let j = choose|j: int| 0 <= j < all.take(k as int).len() && (#[trigger] all.take(k as int)[j])@ == n;
                    assert(all.take(k + 1)[j] == all.take(k as int)[j]);
                }
                if n == f@ {
                    assert(all.take(k + 1)[k as int] == f);
                }
                if font_listed(all.take(k + 1), n) {
                    let j = choose|j: int| 0 <= j < all.take(k + 1).len() && (#[trigger] all.take(k + 1)[j])@ == n;
                    if j < k {
                        assert(all.take(k as int)[j] == all.take(k + 1)[j]);
                    }
                }
            }
        }
        k = k + 1;
    }
    proof {
        assert(all.take(k as int) =~= all);
    }
    res
}

} // verus!
