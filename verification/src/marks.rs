//! Characters that Unicode calls alphabetic though they are no letters.
//!
//! The property `Alphabetic` holds of every letter, of the letter numbers, of many combining
//! marks, and of the Latin letters in circles and squares. This is the table of the marks and
//! of the enclosed letters, by Unicode 14: `\p{M}` and the symbols from U+24B6 on and from
//! U+1F130 on. A stretch that runs over other characters runs over no letter.

use crate::pretoken::chars_of;
use vstd::prelude::*;

verus! {

/// First and last characters of the stretches, in turn.
pub const MARKS: &'static str = "\
\u{300}\u{36f}\u{483}\u{489}\u{591}\u{5c7}\u{610}\u{61a}\u{64b}\u{65f}\u{670}\u{670}\
\u{6d6}\u{6e4}\u{6e7}\u{6ed}\u{711}\u{711}\u{730}\u{74a}\u{7a6}\u{7b0}\u{7eb}\u{7f3}\
\u{7fd}\u{7fd}\u{816}\u{819}\u{81b}\u{823}\u{825}\u{827}\u{829}\u{82d}\u{859}\u{85b}\
\u{898}\u{89f}\u{8ca}\u{903}\u{93a}\u{93c}\u{93e}\u{94f}\u{951}\u{957}\u{962}\u{963}\
\u{981}\u{983}\u{9bc}\u{9bc}\u{9be}\u{9c4}\u{9c7}\u{9c8}\u{9cb}\u{9cd}\u{9d7}\u{9d7}\
\u{9e2}\u{9e3}\u{9fe}\u{9fe}\u{a01}\u{a03}\u{a3c}\u{a3c}\u{a3e}\u{a42}\u{a47}\u{a48}\
\u{a4b}\u{a4d}\u{a51}\u{a51}\u{a70}\u{a71}\u{a75}\u{a75}\u{a81}\u{a83}\u{abc}\u{abc}\
\u{abe}\u{ac5}\u{ac7}\u{ac9}\u{acb}\u{acd}\u{ae2}\u{ae3}\u{afa}\u{aff}\u{b01}\u{b03}\
\u{b3c}\u{b3c}\u{b3e}\u{b44}\u{b47}\u{b48}\u{b4b}\u{b4d}\u{b55}\u{b57}\u{b62}\u{b63}\
\u{b82}\u{b82}\u{bbe}\u{bc2}\u{bc6}\u{bc8}\u{bca}\u{bcd}\u{bd7}\u{bd7}\u{c00}\u{c04}\
\u{c3c}\u{c3c}\u{c3e}\u{c44}\u{c46}\u{c48}\u{c4a}\u{c4d}\u{c55}\u{c56}\u{c62}\u{c63}\
\u{c81}\u{c83}\u{cbc}\u{cbc}\u{cbe}\u{cc4}\u{cc6}\u{cc8}\u{cca}\u{ccd}\u{cd5}\u{cd6}\
\u{ce2}\u{ce3}\u{d00}\u{d03}\u{d3b}\u{d3c}\u{d3e}\u{d44}\u{d46}\u{d48}\u{d4a}\u{d4d}\
\u{d57}\u{d57}\u{d62}\u{d63}\u{d81}\u{d83}\u{dca}\u{dca}\u{dcf}\u{dd4}\u{dd6}\u{dd6}\
\u{dd8}\u{ddf}\u{df2}\u{df3}\u{e31}\u{e31}\u{e34}\u{e3a}\u{e47}\u{e4e}\u{eb1}\u{eb1}\
\u{eb4}\u{ebc}\u{ec8}\u{ecd}\u{f18}\u{f3f}\u{f71}\u{f87}\u{f8d}\u{f97}\u{f99}\u{fbc}\
\u{fc6}\u{fc6}\u{102b}\u{103e}\u{1056}\u{1059}\u{105e}\u{1060}\u{1062}\u{1064}\
\u{1067}\u{106d}\u{1071}\u{1074}\u{1082}\u{108d}\u{108f}\u{109d}\u{135d}\u{135f}\
\u{1712}\u{1715}\u{1732}\u{1734}\u{1752}\u{1753}\u{1772}\u{1773}\u{17b4}\u{17d3}\
\u{17dd}\u{17dd}\u{180b}\u{180f}\u{1885}\u{1886}\u{18a9}\u{18a9}\u{1920}\u{192b}\
\u{1930}\u{193b}\u{1a17}\u{1a1b}\u{1a55}\u{1a5e}\u{1a60}\u{1a7c}\u{1a7f}\u{1a7f}\
\u{1ab0}\u{1ace}\u{1b00}\u{1b04}\u{1b34}\u{1b44}\u{1b6b}\u{1b73}\u{1b80}\u{1b82}\
\u{1ba1}\u{1bad}\u{1be6}\u{1bf3}\u{1c24}\u{1c37}\u{1cd0}\u{1ce8}\u{1ced}\u{1ced}\
\u{1cf4}\u{1cf4}\u{1cf7}\u{1cf9}\u{1dc0}\u{1dff}\u{20d0}\u{20f0}\u{24b6}\u{24e9}\
\u{2cef}\u{2cf1}\u{2d7f}\u{2d7f}\u{2de0}\u{2dff}\u{302a}\u{302f}\u{3099}\u{309a}\
\u{a66f}\u{a67d}\u{a69e}\u{a69f}\u{a6f0}\u{a6f1}\u{a802}\u{a802}\u{a806}\u{a806}\
\u{a80b}\u{a80b}\u{a823}\u{a82c}\u{a880}\u{a881}\u{a8b4}\u{a8c5}\u{a8e0}\u{a8f1}\
\u{a8ff}\u{a8ff}\u{a926}\u{a92d}\u{a947}\u{a953}\u{a980}\u{a983}\u{a9b3}\u{a9c0}\
\u{a9e5}\u{a9e5}\u{aa29}\u{aa36}\u{aa43}\u{aa43}\u{aa4c}\u{aa4d}\u{aa7b}\u{aa7d}\
\u{aab0}\u{aab0}\u{aab2}\u{aab4}\u{aab7}\u{aab8}\u{aabe}\u{aabf}\u{aac1}\u{aac1}\
\u{aaeb}\u{aaef}\u{aaf5}\u{aaf6}\u{abe3}\u{abed}\u{fb1e}\u{fb1e}\u{fe00}\u{fe0f}\
\u{fe20}\u{fe2f}\u{101fd}\u{101fd}\u{102e0}\u{102e0}\u{10376}\u{1037a}\u{10a01}\u{10a03}\
\u{10a05}\u{10a06}\u{10a0c}\u{10a0f}\u{10a38}\u{10a3a}\u{10a3f}\u{10a3f}\u{10ae5}\u{10ae6}\
\u{10d24}\u{10d27}\u{10eab}\u{10eac}\u{10f46}\u{10f50}\u{10f82}\u{10f85}\u{11000}\u{11002}\
\u{11038}\u{11046}\u{11070}\u{11070}\u{11073}\u{11074}\u{1107f}\u{11082}\u{110b0}\u{110c2}\
\u{11100}\u{11102}\u{11127}\u{11134}\u{11145}\u{11146}\u{11173}\u{11173}\u{11180}\u{11182}\
\u{111b3}\u{111c0}\u{111c9}\u{111cf}\u{1122c}\u{1123e}\u{112df}\u{112ea}\u{11300}\u{11303}\
\u{1133b}\u{1133c}\u{1133e}\u{11344}\u{11347}\u{11348}\u{1134b}\u{1134d}\u{11357}\u{11357}\
\u{11362}\u{11363}\u{11366}\u{1136c}\u{11370}\u{11374}\u{11435}\u{11446}\u{1145e}\u{1145e}\
\u{114b0}\u{114c3}\u{115af}\u{115b5}\u{115b8}\u{115c0}\u{115dc}\u{115dd}\u{11630}\u{11640}\
\u{116ab}\u{116b7}\u{1171d}\u{1172b}\u{1182c}\u{1183a}\u{11930}\u{11935}\u{11937}\u{11938}\
\u{1193b}\u{1193e}\u{11940}\u{11940}\u{11942}\u{11943}\u{119d1}\u{119d7}\u{119da}\u{119e0}\
\u{119e4}\u{119e4}\u{11a01}\u{11a0a}\u{11a33}\u{11a39}\u{11a3b}\u{11a47}\u{11a51}\u{11a5b}\
\u{11a8a}\u{11a99}\u{11c2f}\u{11c36}\u{11c38}\u{11c3f}\u{11c92}\u{11ca7}\u{11ca9}\u{11cb6}\
\u{11d31}\u{11d36}\u{11d3a}\u{11d3a}\u{11d3c}\u{11d3d}\u{11d3f}\u{11d45}\u{11d47}\u{11d47}\
\u{11d8a}\u{11d8e}\u{11d90}\u{11d91}\u{11d93}\u{11d97}\u{11ef3}\u{11ef6}\u{16af0}\u{16af4}\
\u{16b30}\u{16b36}\u{16f4f}\u{16f4f}\u{16f51}\u{16f87}\u{16f8f}\u{16f92}\u{16fe4}\u{16fe4}\
\u{16ff0}\u{16ff1}\u{1bc9d}\u{1bc9e}\u{1cf00}\u{1cf2d}\u{1cf30}\u{1cf46}\u{1d165}\u{1d1ad}\
\u{1d242}\u{1d244}\u{1da00}\u{1da84}\u{1da9b}\u{1da9f}\u{1daa1}\u{1daaf}\u{1e000}\u{1e006}\
\u{1e008}\u{1e018}\u{1e01b}\u{1e021}\u{1e023}\u{1e024}\u{1e026}\u{1e02a}\u{1e130}\u{1e136}\
\u{1e2ae}\u{1e2ae}\u{1e2ec}\u{1e2ef}\u{1e8d0}\u{1e8d6}\u{1e944}\u{1e94a}\u{1f130}\u{1f189}\
\u{e0100}\u{e01ef}";

/// The character lies in a stretch of the table.
pub open spec fn marked(table: Seq<char>, c: char) -> bool {
    exists|k: int|
        0 <= k && 2 * k + 1 < table.len() && #[trigger] stretch_has(table, k, c)
}

/// The character lies in the stretch of that number.
pub open spec fn stretch_has(table: Seq<char>, k: int, c: char) -> bool {
    table[2 * k] as u32 <= c as u32 <= table[2 * k + 1] as u32
}

/// The table.
pub fn mark_table() -> (t: Vec<char>)
    ensures
        t@ == MARKS@,
{
    chars_of(MARKS)
}

/// Whether a character lies in a stretch of a table.
pub fn is_marked(table: &[char], c: char) -> (r: bool)
    ensures
        r == marked(table@, c),
{
    let n: usize = table.len() / 2;
    let mut k: usize = 0;
    while k < n
        invariant
            k <= n,
            n == table.len() / 2,
            forall|i: int| 0 <= i < k ==> !#[trigger] stretch_has(table@, i, c),
        decreases n - k,
    {
        if table[2 * k] as u32 <= c as u32 && c as u32 <= table[2 * k + 1] as u32 {
            assert(stretch_has(table@, k as int, c));
            return true;
        }
        k = k + 1;
    }
    false
}

} // verus!
