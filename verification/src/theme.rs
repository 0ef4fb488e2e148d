//! Choosing the UI font family.

use vstd::prelude::*;

verus! {

broadcast use vstd::seq_lib::group_seq_properties;

/// The families tried for the UI, in order of preference.
pub open spec fn font_candidates() -> Seq<Seq<char>> {
    seq![
        "Adwaita Sans"@,
        "Cantarell"@,
        "Noto Sans"@,
        "Ubuntu"@,
        "DejaVu Sans"@,
    ]
}

/// The family used when no candidate is installed: the platform's default.
pub open spec fn fallback_font() -> Seq<char> {
    ".SystemUIFont"@
}

/// The first candidate among the first `n` that is installed.
pub open spec fn first_installed(cands: Seq<Seq<char>>, installed: Seq<Seq<char>>, n: int) -> Option<Seq<char>>
    decreases n,
{
    if n <= 0 {
        None
    } else {
        match first_installed(cands, installed, n - 1) {
            Some(f) => Some(f),
            None => if installed.contains(cands[n - 1]) {
                Some(cands[n - 1])
            } else {
                None
            },
        }
    }
}

proof fn lemma_first_installed_stays(cands: Seq<Seq<char>>, installed: Seq<Seq<char>>, n: int, m: int)
    requires
        0 <= n <= m,
        first_installed(cands, installed, n) is Some,
    ensures
        first_installed(cands, installed, m) == first_installed(cands, installed, n),
    decreases m - n,
{
    if m > n {
        lemma_first_installed_stays(cands, installed, n, m - 1);
    }
}

/// The first candidate family that is installed, else the platform default.
/// A family that fails to resolve loses its bold and italic faces, so an
/// installed one is picked where there is one.
pub fn pick_ui_font(installed: &[String]) -> (r: String)
    ensures
        r@ == match first_installed(font_candidates(), installed@.map_values(|s: String| s@), 5) {
            Some(f) => f,
            None => fallback_font(),
        },
{
    let ghost inst = installed@.map_values(|s: String| s@);
    let cands: Vec<&'static str> = vec!["Adwaita Sans", "Cantarell", "Noto Sans", "Ubuntu", "DejaVu Sans"];
    assert(cands@.map_values(|s: &str| s@) =~= font_candidates());
    let mut k: usize = 0;
    while k < cands.len()
        invariant
            k <= cands.len(),
            cands.len() == 5,
            cands@.map_values(|s: &str| s@) == font_candidates(),
            inst == installed@.map_values(|s: String| s@),
            first_installed(font_candidates(), inst, k as int) is None,
        decreases cands.len() - k,
    {
        let cand = cands[k].to_owned();
        assert(cand@ == font_candidates()[k as int]);
        let mut j: usize = 0;
        while j < installed.len()
            invariant
                j <= installed.len(),
                k < cands.len(),
                cands.len() == 5,
                cand@ == font_candidates()[k as int],
                first_installed(font_candidates(), inst, k as int) is None,
                inst == installed@.map_values(|s: String| s@),
                forall|q: int| 0 <= q < j ==> inst[q] != cand@,
            decreases installed.len() - j,
        {
            if installed[j] == cand {
                assert(inst[j as int] == cand@);
                assert(inst.contains(cand@));
                proof {
                    lemma_first_installed_stays(font_candidates(), inst, k + 1, 5);
                }
                return cand;
            }
            j += 1;
        }
        assert(!inst.contains(cand@));
        k += 1;
    }
    ".SystemUIFont".to_owned()
}

} // verus!
