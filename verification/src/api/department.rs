use crate::search::matcher::{all_ascii, closest_in};
use crate::utils::{lowercase_of, to_lowercase};
use vstd::prelude::*;
use vstd::utf8::is_ascii_chars;

verus! {

/// The departments of the college: the name of each, in lower case, with the
/// id that the catalog knows it by.
pub open spec fn department_table() -> Seq<(Seq<char>, Seq<char>)> {
    seq![
        ("administration"@, "ADMIN-CTY"@),
        ("anthropology"@, "ANTH-CTY"@),
        ("architecture"@, "ARCH-CTY"@),
        ("art"@, "ART-CTY"@),
        ("biology"@, "BIO-CTY"@),
        ("biomedical education"@, "MED-CTY"@),
        ("biomedical engineering"@, "BME-CTY"@),
        ("cuny honors college"@, "HONOR-CTY"@),
        ("center for worker education"@, "CWE-CTY"@),
        ("chemical engineering"@, "CHE-CTY"@),
        ("chemistry"@, "CHEM-CTY"@),
        ("civil engineering"@, "CE-CTY"@),
        ("classical and modern languages and literatures"@, "LANG-CTY"@),
        ("computer science"@, "CSC-CTY"@),
        ("division of science"@, "DIVSCI-CTY"@),
        ("earth and atmospheric science"@, "EAS-CTY"@),
        ("economics and business"@, "ECO-CTY"@),
        ("education"@, "EDUC-CTY"@),
        ("electrical engineering"@, "EE-CTY"@),
        ("engineering"@, "ENGR-CTY"@),
        ("english"@, "ENGL-CTY"@),
        ("history"@, "HIST-CTY"@),
        ("humanities and the arts"@, "HART-CTY"@),
        ("interdisciplinary arts and sciences"@, "IAS-CTY"@),
        ("latin american & latino studies"@, "LALS-CTY"@),
        ("learning leadership and culture"@, "LRLDC-CTY"@),
        ("mathematics"@, "MATH-CTY"@),
        ("mechanical engineering"@, "ME-CTY"@),
        ("media and communication arts"@, "MCA-CTY"@),
        ("music"@, "MUS-CTY"@),
        ("philosophy"@, "PHIL-CTY"@),
        ("physics"@, "PHY-CTY"@),
        ("political science"@, "PSC-CTY"@),
        ("psychology"@, "PSY-CTY"@),
        ("school of biomedical education"@, "BMED-CTY"@),
        ("science"@, "SCI-CTY"@),
        ("social science"@, "SSCI-CTY"@),
        ("sociology"@, "SOC-CTY"@),
        ("teaching and learning"@, "TCHLR-CTY"@),
        ("grove school of engineering"@, "GROVE-CTY"@),
        ("theatre and speech"@, "THSP-CTY"@),
    ]
}

/// The names of the table, in its order.
pub open spec fn department_names() -> Seq<Seq<char>> {
    Seq::new(department_table().len(), |i: int| department_table()[i].0)
}

/// The id that the first entry of `table` with the name `name` carries.
pub open spec fn looked_up(table: Seq<(Seq<char>, Seq<char>)>, name: Seq<char>) -> Option<
    Seq<char>,
>
    decreases table.len(),
{
    if table.len() == 0 {
        None
    } else if table[0].0 == name {
        Some(table[0].1)
    } else {
        looked_up(table.drop_first(), name)
    }
}

/// The lower-case form of what the user typed.
pub fn input_validation(user_input: &str) -> (lowered: String)
    ensures
        lowered@ == lowercase_of(user_input@),
{
    to_lowercase(user_input)
}

/// The table of departments: names with their ids.
pub fn get_department_mappings() -> (mappings: Vec<(String, String)>)
    ensures
        mappings.deep_view() == department_table(),
{
    let mut mappings: Vec<(String, String)> = Vec::new();
    mappings.push(("administration".to_owned(), "ADMIN-CTY".to_owned()));
    mappings.push(("anthropology".to_owned(), "ANTH-CTY".to_owned()));
    mappings.push(("architecture".to_owned(), "ARCH-CTY".to_owned()));
    mappings.push(("art".to_owned(), "ART-CTY".to_owned()));
    mappings.push(("biology".to_owned(), "BIO-CTY".to_owned()));
    mappings.push(("biomedical education".to_owned(), "MED-CTY".to_owned()));
    mappings.push(("biomedical engineering".to_owned(), "BME-CTY".to_owned()));
    mappings.push(("cuny honors college".to_owned(), "HONOR-CTY".to_owned()));
    mappings.push(("center for worker education".to_owned(), "CWE-CTY".to_owned()));
    mappings.push(("chemical engineering".to_owned(), "CHE-CTY".to_owned()));
    mappings.push(("chemistry".to_owned(), "CHEM-CTY".to_owned()));
    mappings.push(("civil engineering".to_owned(), "CE-CTY".to_owned()));
    mappings.push(
        ("classical and modern languages and literatures".to_owned(), "LANG-CTY".to_owned()),
    );
    mappings.push(("computer science".to_owned(), "CSC-CTY".to_owned()));
    mappings.push(("division of science".to_owned(), "DIVSCI-CTY".to_owned()));
    mappings.push(("earth and atmospheric science".to_owned(), "EAS-CTY".to_owned()));
    mappings.push(("economics and business".to_owned(), "ECO-CTY".to_owned()));
    mappings.push(("education".to_owned(), "EDUC-CTY".to_owned()));
    mappings.push(("electrical engineering".to_owned(), "EE-CTY".to_owned()));
    mappings.push(("engineering".to_owned(), "ENGR-CTY".to_owned()));
    mappings.push(("english".to_owned(), "ENGL-CTY".to_owned()));
    mappings.push(("history".to_owned(), "HIST-CTY".to_owned()));
    mappings.push(("humanities and the arts".to_owned(), "HART-CTY".to_owned()));
    mappings.push(("interdisciplinary arts and sciences".to_owned(), "IAS-CTY".to_owned()));
    mappings.push(("latin american & latino studies".to_owned(), "LALS-CTY".to_owned()));
    mappings.push(("learning leadership and culture".to_owned(), "LRLDC-CTY".to_owned()));
    mappings.push(("mathematics".to_owned(), "MATH-CTY".to_owned()));
    mappings.push(("mechanical engineering".to_owned(), "ME-CTY".to_owned()));
    mappings.push(("media and communication arts".to_owned(), "MCA-CTY".to_owned()));
    mappings.push(("music".to_owned(), "MUS-CTY".to_owned()));
    mappings.push(("philosophy".to_owned(), "PHIL-CTY".to_owned()));
    mappings.push(("physics".to_owned(), "PHY-CTY".to_owned()));
    mappings.push(("political science".to_owned(), "PSC-CTY".to_owned()));
    mappings.push(("psychology".to_owned(), "PSY-CTY".to_owned()));
    mappings.push(("school of biomedical education".to_owned(), "BMED-CTY".to_owned()));
    mappings.push(("science".to_owned(), "SCI-CTY".to_owned()));
    mappings.push(("social science".to_owned(), "SSCI-CTY".to_owned()));
    mappings.push(("sociology".to_owned(), "SOC-CTY".to_owned()));
    mappings.push(("teaching and learning".to_owned(), "TCHLR-CTY".to_owned()));
    mappings.push(("grove school of engineering".to_owned(), "GROVE-CTY".to_owned()));
    mappings.push(("theatre and speech".to_owned(), "THSP-CTY".to_owned()));
    mappings
}

/// The names of all departments, in the order of the table.
pub fn get_department_list() -> (department_list: Vec<String>)
    ensures
        department_list.deep_view() == department_names(),
{
    let department_mapping = get_department_mappings();
    let mut department_list: Vec<String> = Vec::new();
    let mut i: usize = 0;
    while i < department_mapping.len()
        invariant
            i <= department_mapping.len(),
            department_mapping.deep_view() == department_table(),
            department_list@.len() == i,
            forall|j: int| 0 <= j < i ==> department_list@[j]@ == department_table()[j].0,
        decreases department_mapping.len() - i,
    {
        department_list.push(department_mapping[i].0.clone());
        i += 1;
    }
    department_list
}

/// The id of the department with exactly the name `name`, if the table has
/// one.
pub fn department_id(name: &str) -> (id: Option<String>)
    ensures
        match id {
            Some(id) => looked_up(department_table(), name@) == Some(id@),
            None => looked_up(department_table(), name@) is None,
        },
{
    let mappings = get_department_mappings();
    let wanted = name.to_owned();
    let mut i: usize = 0;
    assert(department_table().skip(0) =~= department_table());
    while i < mappings.len()
        invariant
            i <= mappings.len(),
            wanted@ == name@,
            mappings.deep_view() == department_table(),
            looked_up(department_table(), name@) == looked_up(
                department_table().skip(i as int),
                name@,
            ),
        decreases mappings.len() - i,
    {
        proof {
            let rest = department_table().skip(i as int);
            assert(rest.drop_first() =~= department_table().skip(i + 1));
        }
        if mappings[i].0 == wanted {
            return Some(mappings[i].1.clone());
        }
        i += 1;
    }
    None
}

/// Every department name is made of ASCII characters.
pub proof fn lemma_department_names_ascii()
    ensures
        all_ascii(department_names()),
{
    reveal_strlit("administration");
    reveal_strlit("anthropology");
    reveal_strlit("architecture");
    reveal_strlit("art");
    reveal_strlit("biology");
    reveal_strlit("biomedical education");
    reveal_strlit("biomedical engineering");
    reveal_strlit("cuny honors college");
    reveal_strlit("center for worker education");
    reveal_strlit("chemical engineering");
    reveal_strlit("chemistry");
    reveal_strlit("civil engineering");
    reveal_strlit("classical and modern languages and literatures");
    reveal_strlit("computer science");
    reveal_strlit("division of science");
    reveal_strlit("earth and atmospheric science");
    reveal_strlit("economics and business");
    reveal_strlit("education");
    reveal_strlit("electrical engineering");
    reveal_strlit("engineering");
    reveal_strlit("english");
    reveal_strlit("history");
    reveal_strlit("humanities and the arts");
    reveal_strlit("interdisciplinary arts and sciences");
    reveal_strlit("latin american & latino studies");
    reveal_strlit("learning leadership and culture");
    reveal_strlit("mathematics");
    reveal_strlit("mechanical engineering");
    reveal_strlit("media and communication arts");
    reveal_strlit("music");
    reveal_strlit("philosophy");
    reveal_strlit("physics");
    reveal_strlit("political science");
    reveal_strlit("psychology");
    reveal_strlit("school of biomedical education");
    reveal_strlit("science");
    reveal_strlit("social science");
    reveal_strlit("sociology");
    reveal_strlit("teaching and learning");
    reveal_strlit("grove school of engineering");
    reveal_strlit("theatre and speech");
}

/// The department whose name is closest to what the user typed, in lower
/// case. Names are compared by the substrings they share, up to the length
/// of the shortest department name.
pub fn closest_matching_department(user_input_department_name: &str) -> (result_string: String)
    requires
        is_ascii_chars(user_input_department_name@),
    ensures
        exists|i: int|
            0 <= i < department_names().len() && result_string@ == lowercase_of(
                lowercase_of(#[trigger] department_names()[i]),
            ),
{
    let department_list: Vec<String> = get_department_list();
    proof {
        lemma_department_names_ascii();
    }
    let ghost names = department_list.deep_view();
    let closest = closest_in(department_list, user_input_department_name);
    proof {
        let found = closest.unwrap()@;
        let i = choose|i: int|
            0 <= i < names.len() && found == lowercase_of(lowercase_of(#[trigger] names[i]));
    }
    closest.unwrap()
}

/// Whether `id` is what a lookup of `name` in the table gives.
pub open spec fn is_lookup_of(id: Option<String>, name: Seq<char>) -> bool {
    match id {
        Some(id) => looked_up(department_table(), name) == Some(id@),
        None => looked_up(department_table(), name) is None,
    }
}

/// The id of the department that the user meant: the input is put in lower
/// case, matched against the department names, and the match is looked up
/// in the table. Input that is not ASCII once it is in lower case matches
/// nothing.
pub fn matching_department_id(department_name: &str) -> (id: Option<String>)
    ensures
        !is_ascii_chars(lowercase_of(department_name@)) ==> id is None,
        is_ascii_chars(lowercase_of(department_name@)) ==> exists|i: int|
            0 <= i < department_names().len() && is_lookup_of(
                id,
                lowercase_of(lowercase_of(#[trigger] department_names()[i])),
            ),
{
    let lowered = input_validation(department_name);
    if !lowered.as_str().is_ascii() {
        return None;
    }
    let closest = closest_matching_department(lowered.as_str());
    department_id(closest.as_str())
}

/// Whether `c` is one of the ten decimal digits.
pub open spec fn is_decimal_digit(c: char) -> bool {
    '0' <= c && c <= '9'
}

/// The decimal digits of `text`, in their order.
pub open spec fn digits_of(text: Seq<char>) -> Seq<char>
    decreases text.len(),
{
    if text.len() == 0 {
        Seq::empty()
    } else if is_decimal_digit(text.last()) {
        digits_of(text.drop_last()).push(text.last())
    } else {
        digits_of(text.drop_last())
    }
}

/// The number that the decimal digits `digits` write.
pub open spec fn decimal_value(digits: Seq<char>) -> nat
    decreases digits.len(),
{
    if digits.len() == 0 {
        0
    } else {
        decimal_value(digits.drop_last()) * 10 + (digits.last() as u32 - '0' as u32) as nat
    }
}

/// What stands for a course number that cannot be read.
pub const UNREADABLE_COURSE_NUMBER: i64 = 64;

/// The course number that `text` carries: its digits, read as a decimal
/// number, whatever stands between them.
pub open spec fn course_number_of(text: Seq<char>) -> i64 {
    if digits_of(text).len() == 0 || decimal_value(digits_of(text)) > i64::MAX {
        UNREADABLE_COURSE_NUMBER
    } else {
        decimal_value(digits_of(text)) as i64
    }
}

/// Reads the number of a course from `text`: everything but the decimal
/// digits is dropped, and the digits are read as one number. Text without
/// digits, or with more than fit in 64 bits, gives
/// `UNREADABLE_COURSE_NUMBER`.
pub fn parse_course_number(text: &str) -> (number: i64)
    ensures
        number == course_number_of(text@),
{
    let count = text.unicode_len();
    let mut value: i64 = 0;
    let mut seen: bool = false;
    let mut overflow: bool = false;
    let mut i: usize = 0;
    while i < count
        invariant
            i <= count,
            count == text@.len(),
            seen == (digits_of(text@.take(i as int)).len() > 0),
            !overflow ==> value == decimal_value(digits_of(text@.take(i as int))),
            overflow ==> decimal_value(digits_of(text@.take(i as int))) > i64::MAX,
            0 <= value,
        decreases count - i,
    {
        let c = text.get_char(i);
        proof {
            let before = text@.take(i as int);
            let upto = text@.take(i + 1);
            assert(upto.drop_last() =~= before);
            if is_decimal_digit(c) {
                assert(digits_of(upto).drop_last() =~= digits_of(before));
            }
        }
        if '0' <= c && c <= '9' {
            seen = true;
            let digit: i64 = (c as u32 - '0' as u32) as i64;
            if !overflow {
                if value > (i64::MAX - digit) / 10 {
                    overflow = true;
                } else {
                    value = value * 10 + digit;
                }
            }
        }
        i += 1;
    }
    proof {
        assert(text@.take(count as int) =~= text@);
    }
    if !seen || overflow {
        UNREADABLE_COURSE_NUMBER
    } else {
        value
    }
}

/// The number under which a course is filed: the number that its code
/// carries, where that fits in 32 bits, and 0 where it does not.
pub open spec fn packed_code_of(course_code: Seq<char>) -> u32 {
    if 0 <= course_number_of(course_code) <= u32::MAX {
        course_number_of(course_code) as u32
    } else {
        0
    }
}

/// Packs the code of a course, such as `CSC 21200`, into the number under
/// which the course is filed.
pub fn pack_course_code(course_code: &str) -> (packed: u32)
    ensures
        packed == packed_code_of(course_code@),
{
    let number = parse_course_number(course_code);
    if 0 <= number && number <= 0xffff_ffff {
        number as u32
    } else {
        0
    }
}

} // verus!
