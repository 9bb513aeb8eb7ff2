//! Where the identifier tables of a game version are looked for: the game
//! variant of a version string, the names of the files, and the names a
//! client version may go by.

use vstd::prelude::*;
use vstd::string::StrSliceExecFns;
use vstd::string::StringExecFns;
use vstd::string::StringSliceAdditionalSpecFns;

verus! {

/// True when `needle` stands in `hay` at position `i`.
pub open spec fn occurs_at(hay: Seq<u8>, needle: Seq<u8>, i: int) -> bool {
    0 <= i && i + needle.len() <= hay.len() && hay.subrange(i, i + needle.len()) == needle
}

/// True when `needle` stands somewhere in `hay`.
pub open spec fn has_substring(hay: Seq<u8>, needle: Seq<u8>) -> bool {
    exists|i: int| occurs_at(hay, needle, i)
}

/// True when `needle` stands somewhere in `hay`.
pub fn contains_bytes(hay: &[u8], needle: &[u8]) -> (b: bool)
    ensures
        b == has_substring(hay@, needle@),
{
    if needle.len() > hay.len() {
        return false;
    }
    let len = needle.len();
    let last = hay.len() - len;
    let mut i: usize = 0;
    while i <= last
        invariant
            len == needle@.len(),
            last + len == hay@.len(),
            hay@.len() <= usize::MAX,
            forall|j: int| 0 <= j < i ==> !occurs_at(hay@, needle@, j),
        decreases last + 1 - i,
    {
        let mut k: usize = 0;
        while k < len && hay[i + k] == needle[k]
            invariant
                i <= last,
                len == needle@.len(),
                last + len == hay@.len(),
                hay@.len() <= usize::MAX,
                k <= len,
                forall|m: int| 0 <= m < k ==> hay@[i + m] == needle@[m],
            decreases len - k,
        {
            k = k + 1;
        }
        if k == len {
            assert(hay@.subrange(i as int, i + needle@.len()) =~= needle@);
            assert(occurs_at(hay@, needle@, i as int));
            return true;
        }
        assert(!occurs_at(hay@, needle@, i as int)) by {
            if occurs_at(hay@, needle@, i as int) {
                assert(hay@.subrange(i as int, i + needle@.len())[k as int] == needle@[k as int]);
            }
        }
        i = i + 1;
    }
    assert forall|j: int| !occurs_at(hay@, needle@, j) by {
        if occurs_at(hay@, needle@, j) {
            assert(j < i);
        }
    }
    false
}

/// True when the version string names the game variant `tag`.
pub open spec fn names_variant(version: Seq<u8>, tag: &str) -> bool {
    has_substring(version, tag.spec_bytes())
}

/// The game variant of a version string: the first of the known variant
/// tags that stands in it, and the European one where none does.
pub open spec fn variant_of(version: Seq<u8>) -> &'static str {
    if names_variant(version, "wot_eu") {
        "wot_eu"
    } else if names_variant(version, "wot_ru") {
        "wot_ru"
    } else if names_variant(version, "wot_na") {
        "wot_na"
    } else if names_variant(version, "wot_asia") {
        "wot_asia"
    } else if names_variant(version, "wot_cn") {
        "wot_cn"
    } else {
        "wot_eu"
    }
}

/// The game variant whose default tables go with a version string.
pub fn game_variant(version: &str) -> (tag: &'static str)
    ensures
        tag@ == variant_of(version.spec_bytes())@,
{
    let bytes = version.as_bytes();
    if contains_bytes(bytes, "wot_eu".as_bytes()) {
        "wot_eu"
    } else if contains_bytes(bytes, "wot_ru".as_bytes()) {
        "wot_ru"
    } else if contains_bytes(bytes, "wot_na".as_bytes()) {
        "wot_na"
    } else if contains_bytes(bytes, "wot_asia".as_bytes()) {
        "wot_asia"
    } else if contains_bytes(bytes, "wot_cn".as_bytes()) {
        "wot_cn"
    } else {
        "wot_eu"
    }
}

/// The name of the file that holds the tables of a version.
pub fn version_file_name(version: &str) -> (name: String)
    ensures
        name@ == "ids_"@ + version@ + ".json"@,
{
    let mut name = String::from_str("ids_");
    name.append(version);
    name.append(".json");
    name
}

/// The names under which the default tables of the game variant of a
/// version are looked for, in order: below the working directory, and
/// below the directory of the project.
pub fn defaults_file_names(version: &str) -> (names: Vec<String>)
    ensures
        names@.len() == 2,
        names@[0]@ == "message_codes/"@ + variant_of(version.spec_bytes())@ + "/_default.json"@,
        names@[1]@ == "replays-parser/"@ + names@[0]@,
{
    let variant = game_variant(version);
    let mut first = String::from_str("message_codes/");
    first.append(variant);
    first.append("/_default.json");
    let mut second = String::from_str("replays-parser/");
    second.append(first.as_str());
    let mut names: Vec<String> = Vec::new();
    names.push(first);
    names.push(second);
    names
}

/// A client version with every dot replaced by an underscore.
pub open spec fn underscored(version: Seq<char>) -> Seq<char> {
    Seq::new(
        version.len(),
        |i: int|
            if version[i] == '.' {
                '_'
            } else {
                version[i]
            },
    )
}

/// A client version with every dot replaced by an underscore.
pub fn underscore_dots(version: &str) -> (name: String)
    ensures
        name@ == underscored(version@),
{
    let len = version.unicode_len();
    let mut name = String::new();
    let mut i: usize = 0;
    while i < len
        invariant
            len == version@.len(),
            i <= len,
            name@ == underscored(version@).take(i as int),
        decreases len - i,
    {
        let ghost before = name@;
        if version.get_char(i) == '.' {
            proof {
                reveal_strlit("_");
            }
            name.append("_");
        } else {
            name.append(version.substring_char(i, i + 1));
        }
        assert(name@ =~= underscored(version@).take(i + 1));
        i = i + 1;
    }
    assert(name@ =~= underscored(version@));
    name
}

/// The version names that the tables of a client version may be filed
/// under, in the order in which they are tried: the plain one first, then
/// one for each game variant.
pub fn version_candidates(client_version: &str) -> (names: Vec<String>)
    ensures
        names@.len() == 5,
        names@[0]@ == "wot_v"@ + underscored(client_version@),
        names@[1]@ == "wot_eu_v"@ + underscored(client_version@),
        names@[2]@ == "wot_ru_v"@ + underscored(client_version@),
        names@[3]@ == "wot_na_v"@ + underscored(client_version@),
        names@[4]@ == "wot_asia_v"@ + underscored(client_version@),
{
    let clean = underscore_dots(client_version);
    let mut names: Vec<String> = Vec::new();
    names.push(String::from_str("wot_v").concat(clean.as_str()));
    names.push(String::from_str("wot_eu_v").concat(clean.as_str()));
    names.push(String::from_str("wot_ru_v").concat(clean.as_str()));
    names.push(String::from_str("wot_na_v").concat(clean.as_str()));
    names.push(String::from_str("wot_asia_v").concat(clean.as_str()));
    names
}

} // verus!
