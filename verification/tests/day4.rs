use advent2020::day4::{
    check_eye_colour, check_hair_colour, check_height, check_passport_id, part1, part2,
    read_passports, Passport, PassportError,
};

fn lines(text: &str) -> Vec<String> {
    text.lines().map(|l| l.to_string()).collect()
}

const SAMPLE: &str = "ecl:gry pid:860033327 eyr:2020 hcl:#fffffd
byr:1937 iyr:2017 cid:147 hgt:183cm

iyr:2013 ecl:amb cid:350 eyr:2023 pid:028048884
hcl:#cfa07d byr:1929

hcl:#ae17e1 iyr:2013
eyr:2024
ecl:brn pid:760753108 byr:1931
hgt:179cm

hcl:#cfa07d eyr:2025 pid:166559648
iyr:2011 ecl:brn hgt:59in";

#[test]
fn sample_passports_with_all_fields() {
    let passports = read_passports(&lines(SAMPLE));
    assert_eq!(passports.len(), 4);
    assert_eq!(part1(&passports), 2);
    assert_eq!(part2(&passports), 2);
    assert_eq!(passports[0].birth_year, Some(1937));
    assert_eq!(passports[0].country_id, Some(147));
    assert_eq!(passports[0].height.as_deref(), Some("183cm"));
    assert_eq!(passports[1].height, None);
}

#[test]
fn the_last_line_is_a_passport_by_itself() {
    let passports = read_passports(&lines("byr:1937\niyr:2017"));
    assert_eq!(passports.len(), 1);
    assert_eq!(passports[0].birth_year, None);
    assert_eq!(passports[0].issue_year, Some(2017));
    assert_eq!(read_passports(&Vec::new()).len(), 0);
}

#[test]
fn fields_are_words_before_a_colon() {
    let passport = Passport::from_str("  byr:2002 x hgt:60in: hcl:#123abc pid:1 pid:000000001 byr:+1999");
    assert_eq!(passport.birth_year, Some(1999));
    assert_eq!(passport.height.as_deref(), Some("60in:"));
    assert_eq!(passport.hair_colour.as_deref(), Some("#123abc"));
    assert_eq!(passport.passport_id.as_deref(), Some("000000001"));
    assert_eq!(passport.issue_year, None);
    assert!(!passport.has_all_required_fields());
}

#[test]
fn field_rules() {
    assert_eq!(check_height("60in"), None);
    assert_eq!(check_height("190cm"), None);
    assert_eq!(check_height("190in"), Some(PassportError::InvalidHeight));
    assert_eq!(check_height("149cm"), Some(PassportError::InvalidHeight));
    assert_eq!(check_height("190"), Some(PassportError::MalformedHeight));
    assert_eq!(check_height("cm"), Some(PassportError::MalformedHeight));
    assert_eq!(check_height("99999999999cm"), Some(PassportError::InvalidHeightValue));
    assert!(check_hair_colour("#123abc"));
    assert!(!check_hair_colour("#123abz"));
    assert!(!check_hair_colour("123abc"));
    assert!(!check_hair_colour("#123abcd"));
    assert!(check_eye_colour("brn"));
    assert!(!check_eye_colour("wat"));
    assert!(check_passport_id("000000001"));
    assert!(!check_passport_id("0123456789"));
    assert!(!check_passport_id("00000000a"));
}

fn valid() -> Passport {
    Passport::from_str("pid:087499704 hgt:74in ecl:grn iyr:2012 eyr:2030 byr:1980 hcl:#623a2f")
}

#[test]
fn first_thing_wrong_with_a_passport() {
    assert_eq!(valid().validate(), Ok(()));
    assert_eq!(Passport::empty().validate(), Err(PassportError::NoBirthYear));
    let cases: Vec<(&str, PassportError)> = vec![
        ("byr:1919", PassportError::InvalidBirthYear),
        ("byr:2003", PassportError::InvalidBirthYear),
        ("iyr:2009", PassportError::InvalidIssueYear),
        ("eyr:2031", PassportError::InvalidExpirationYear),
        ("hgt:77in", PassportError::InvalidHeight),
        ("hgt:77", PassportError::MalformedHeight),
        ("hcl:623a2f", PassportError::InvalidHairColour),
        ("ecl:red", PassportError::InvalidEyeColour),
        ("pid:12345678", PassportError::InvalidPassportId),
    ];
    for (field, error) in cases {
        let text = format!("pid:087499704 hgt:74in ecl:grn iyr:2012 eyr:2030 byr:1980 hcl:#623a2f {}", field);
        assert_eq!(Passport::from_str(&text).validate(), Err(error), "{}", field);
    }
    let mut passport = valid();
    passport.issue_year = None;
    assert_eq!(passport.validate(), Err(PassportError::NoIssueYear));
    let mut passport = valid();
    passport.expiration_year = None;
    assert_eq!(passport.validate(), Err(PassportError::NoExpirationYear));
    let mut passport = valid();
    passport.height = None;
    assert_eq!(passport.validate(), Err(PassportError::NoHeight));
    let mut passport = valid();
    passport.hair_colour = None;
    assert_eq!(passport.validate(), Err(PassportError::NoHairColour));
    let mut passport = valid();
    passport.eye_colour = None;
    assert_eq!(passport.validate(), Err(PassportError::NoEyeColour));
    let mut passport = valid();
    passport.passport_id = None;
    assert_eq!(passport.validate(), Err(PassportError::NoPassportId));
}
