//! Where the favourites of a tournament are put: a directory under the
//! pictures of the user, named after the folder the images came from, the
//! day and the clock.

use vstd::prelude::*;
use vstd::string::*;

verus! {

/// Asks `dirs::home_dir` for the home directory of the user and turns the
/// path into text. The answer depends on the environment of the process:
/// nothing is claimed of it.
#[verifier::external_body]
fn home_directory() -> (home: Option<String>) {
    match dirs::home_dir() {
        Some(path) => Some(path.to_string_lossy().into_owned()),
        None => None,
    }
}

/// The local date of this moment, as `chrono::Local::now` reads it and
/// `DateTime::format` writes it with `%Y%m%d`. The answer depends on the
/// clock and the time zone of the machine: nothing is claimed of it.
#[verifier::external_body]
fn today_stamp() -> (stamp: String) {
    chrono::Local::now().format("%Y%m%d").to_string()
}

/// The seconds since the Unix epoch at this moment, as `chrono::Local::now`
/// reads them and `DateTime::timestamp` counts them. The answer depends on
/// the clock of the machine: nothing is claimed of it.
#[verifier::external_body]
fn seconds_since_epoch() -> (seconds: i64) {
    chrono::Local::now().timestamp()
}

/// The character of a decimal digit.
pub open spec fn digit_char(digit: int) -> char {
    if digit == 0 {
        '0'
    } else if digit == 1 {
        '1'
    } else if digit == 2 {
        '2'
    } else if digit == 3 {
        '3'
    } else if digit == 4 {
        '4'
    } else if digit == 5 {
        '5'
    } else if digit == 6 {
        '6'
    } else if digit == 7 {
        '7'
    } else if digit == 8 {
        '8'
    } else {
        '9'
    }
}

/// The last four decimal digits of a number.
pub open spec fn last_four(seconds: int) -> Seq<char> {
    seq![
        digit_char((seconds / 1000) % 10),
        digit_char((seconds / 100) % 10),
        digit_char((seconds / 10) % 10),
        digit_char(seconds % 10),
    ]
}

/// A base path followed by one more component. The two are separated by
/// `/` unless the base is empty or ends in `/` already.
pub open spec fn joined(base: Seq<char>, component: Seq<char>) -> Seq<char> {
    if base.len() == 0 || base.last() == '/' {
        base + component
    } else {
        base + seq!['/'] + component
    }
}

/// The name of the directory of favourites: the name of the folder the
/// images came from, the date and the last four digits of the seconds,
/// separated by hyphens.
pub open spec fn folder_name(original: Seq<char>, date: Seq<char>, seconds: int) -> Seq<char> {
    original + seq!['-'] + date + seq!['-'] + last_four(seconds)
}

/// The directory of favourites under the given home directory:
/// `Pictures/Favourites/` and the folder name.
pub open spec fn favourites_path(
    home: Seq<char>,
    original: Seq<char>,
    date: Seq<char>,
    seconds: int,
) -> Seq<char> {
    joined(
        joined(joined(home, "Pictures"@), "Favourites"@),
        folder_name(original, date, seconds),
    )
}

/// The text of one decimal digit.
fn digit_text(digit: u64) -> (text: &'static str)
    requires
        digit < 10,
    ensures
        text@ == seq![digit_char(digit as int)],
{
    proof {
        reveal_strlit("0");
        reveal_strlit("1");
        reveal_strlit("2");
        reveal_strlit("3");
        reveal_strlit("4");
        reveal_strlit("5");
        reveal_strlit("6");
        reveal_strlit("7");
        reveal_strlit("8");
        reveal_strlit("9");
    }
    let text = if digit == 0 {
        "0"
    } else if digit == 1 {
        "1"
    } else if digit == 2 {
        "2"
    } else if digit == 3 {
        "3"
    } else if digit == 4 {
        "4"
    } else if digit == 5 {
        "5"
    } else if digit == 6 {
        "6"
    } else if digit == 7 {
        "7"
    } else if digit == 8 {
        "8"
    } else {
        "9"
    };
    assert(text@ =~= seq![digit_char(digit as int)]);
    text
}

/// The last four decimal digits of the seconds, as text.
pub fn last_four_digits(seconds: u64) -> (digits: String)
    requires
        seconds >= 1000,
    ensures
        digits@ == last_four(seconds as int),
{
    let mut digits = String::from_str(digit_text((seconds / 1000) % 10));
    digits.append(digit_text((seconds / 100) % 10));
    digits.append(digit_text((seconds / 10) % 10));
    digits.append(digit_text(seconds % 10));
    proof {
        assert(digits@ =~= last_four(seconds as int));
    }
    digits
}

/// A base path followed by one more component.
pub fn join_path(base: &str, component: &str) -> (path: String)
    ensures
        path@ == joined(base@, component@),
{
    let length = base.unicode_len();
    let mut path = String::from_str(base);
    if length > 0 && base.get_char(length - 1) != '/' {
        proof {
            reveal_strlit("/");
        }
        path.append("/");
        proof {
            assert("/"@ =~= seq!['/']);
        }
    }
    path.append(component);
    path
}

/// The directory of favourites for a tournament on the images of the
/// folder `original_folder_name`, made on the day `date` at `seconds`
/// seconds since the epoch, under the home directory `home`.
pub fn favourites_directory(home: &str, original_folder_name: &str, date: &str, seconds: u64) -> (path:
    String)
    requires
        seconds >= 1000,
    ensures
        path@ == favourites_path(home@, original_folder_name@, date@, seconds as int),
{
    let mut name = String::from_str(original_folder_name);
    proof {
        reveal_strlit("-");
    }
    name.append("-");
    name.append(date);
    name.append("-");
    let digits = last_four_digits(seconds);
    name.append(digits.as_str());
    proof {
        assert("-"@ =~= seq!['-']);
        assert(name@ =~= folder_name(original_folder_name@, date@, seconds as int));
    }
    let pictures = join_path(home, "Pictures");
    let favourites = join_path(pictures.as_str(), "Favourites");
    join_path(favourites.as_str(), name.as_str())
}

/// The directory into which the favourites of a tournament on the images
/// of the folder `original_folder_name` are copied now: under the home
/// directory of the user, named after the folder, today's date and the
/// clock. There is none when the user has no home directory or the clock
/// stands within the first thousand seconds of the epoch.
pub fn create_image_directory(original_folder_name: &str) -> (directory: Option<String>)
    ensures
        exists|home: Option<Seq<char>>, date: Seq<char>, seconds: i64|
            text_of(directory) == #[trigger] directory_for(
                home,
                original_folder_name@,
                date,
                seconds,
            ),
{
    let home = home_directory();
    let date = today_stamp();
    let seconds = seconds_since_epoch();
    let directory = image_directory_at(home, original_folder_name, date.as_str(), seconds);
    proof {
        assert(text_of(directory) == directory_for(
            text_of(home),
            original_folder_name@,
            date@,
            seconds,
        ));
    }
    directory
}

/// The text of a string that may be absent.
pub open spec fn text_of(value: Option<String>) -> Option<Seq<char>> {
    match value {
        Some(text) => Some(text@),
        None => None,
    }
}

/// The directory of favourites, given what the machine says of the home
/// directory, the date and the seconds since the epoch: the path under the
/// home directory when there is one and the clock has passed the first
/// thousand seconds, and none otherwise.
pub open spec fn directory_for(
    home: Option<Seq<char>>,
    original: Seq<char>,
    date: Seq<char>,
    seconds: i64,
) -> Option<Seq<char>> {
    match home {
        Some(home) => if seconds >= 1000 {
            Some(favourites_path(home, original, date, seconds as int))
        } else {
            None
        },
        None => None,
    }
}

/// The directory into which the favourites are copied, given what the
/// machine says of the home directory, the date and the seconds since the
/// epoch. There is none without a home directory, and none while the clock
/// stands within the first thousand seconds of the epoch, whose seconds
/// have no four digits.
pub fn image_directory_at(
    home: Option<String>,
    original_folder_name: &str,
    date: &str,
    seconds: i64,
) -> (directory: Option<String>)
    ensures
        text_of(directory) == directory_for(
            text_of(home),
            original_folder_name@,
            date@,
            seconds,
        ),
{
    match home {
        Some(home) => {
            if seconds < 1000 {
                None
            } else {
                Some(
                    favourites_directory(
                        home.as_str(),
                        original_folder_name,
                        date,
                        seconds as u64,
                    ),
                )
            }
        },
        None => None,
    }
}

/// Whether the path holds a character outside ASCII. Such a path cannot be
/// handed to the loader of images.
pub fn contains_non_ascii(path: &str) -> (found: bool)
    ensures
        found == !(forall|i: int| 0 <= i < path@.len() ==> '\0' <= #[trigger] path@[i] <= '\u{7f}'),
{
    !path.is_ascii()
}

} // verus!
