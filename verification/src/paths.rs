use vstd::prelude::*;
use vstd::string::*;
use crate::text::{
    chars_of, decimal_text, ends_with, has_prefix, has_prefix_at, has_suffix, is_digit,
    last_index_of, last_segment, last_segment_of, lemma_decimal_text_reads_back,
    lemma_last_index_of, lemma_last_segment_of_joined, lemma_parse_of_decimal_text,
    parse_u32_chars, parsed_u32, rfind_char, rfind_char_before, slice_chars, starts_with,
    string_from_chars,
};

verus! {

/// The number in the name of a slide part: the last segment of the path is
/// `slide`, a number and `.xml`.
pub open spec fn slide_number_in(path: Seq<char>) -> Option<u32> {
    let file = last_segment(path, '/');
    let rest = file.skip("slide"@.len() as int);
    if starts_with(file, "slide"@) && ends_with(rest, ".xml"@) {
        parsed_u32(rest.take(rest.len() - ".xml"@.len()))
    } else {
        None
    }
}

/// The path of the slide part with a given number, in a given directory,
/// holds that number: `slide`, the decimal numeral of the number and `.xml`
/// behind a directory that is empty or ends with a slash.
pub proof fn lemma_slide_number_of_its_path(directory: Seq<char>, number: u32)
    requires
        directory.len() == 0 || directory.last() == '/',
    ensures
        slide_number_in(directory + "slide"@ + decimal_text(number as nat) + ".xml"@) == Some(
            number,
        ),
{
    reveal_strlit("slide");
    reveal_strlit(".xml");
    let numeral = decimal_text(number as nat);
    let file = "slide"@ + numeral + ".xml"@;
    lemma_decimal_text_reads_back(number as nat);
    lemma_parse_of_decimal_text(number);
    assert forall|i: int| 0 <= i < file.len() implies file[i] != '/' by {
        if 5 <= i < 5 + numeral.len() {
            assert(file[i] == numeral[i - 5]);
            assert(is_digit(numeral[i - 5]));
        }
    }
    assert(directory + "slide"@ + numeral + ".xml"@ =~= directory + file);
    lemma_last_segment_of_joined(directory, file, '/');
    assert(file.take(5) =~= "slide"@);
    let rest = file.skip(5);
    assert(rest =~= numeral + ".xml"@);
    assert(rest.skip(rest.len() - 4) =~= ".xml"@);
    assert(rest.take(rest.len() - 4) =~= numeral);
}

/// The number in the name of a slide part, as in `ppt/slides/slide5.xml`.
pub fn extract_slide_number(path: &str) -> (number: Option<u32>)
    ensures
        number == slide_number_in(path@),
{
    let file = chars_of(last_segment_of(path, '/'));
    let prefix = chars_of("slide");
    let suffix = chars_of(".xml");
    if !has_prefix(&file, &prefix) {
        return None;
    }
    let rest = slice_chars(&file, prefix.len(), file.len());
    proof {
        assert(file@.subrange(prefix.len() as int, file.len() as int) == file@.skip(
            prefix.len() as int,
        ));
    }
    if !has_suffix(&rest, &suffix) {
        return None;
    }
    let digits = slice_chars(&rest, 0, rest.len() - suffix.len());
    proof {
        assert(rest@.subrange(0, rest.len() - suffix.len()) == rest@.take(
            rest.len() - suffix.len(),
        ));
    }
    parse_u32_chars(&digits)
}

/// The path of the part that holds a slide's relationships: `_rels/` goes in
/// front of the last segment, and `.rels` behind it.
pub open spec fn rels_path_of(slide_path: Seq<char>) -> Seq<char> {
    let cut = last_index_of(slide_path, '/');
    if cut >= 0 {
        slide_path.take(cut + 1) + "_rels/"@ + slide_path.skip(cut + 1) + ".rels"@
    } else {
        slide_path + ".rels"@
    }
}

/// The path of the part that holds a slide's relationships.
pub fn slide_rels_path(slide_path: &str) -> (rels_path: String)
    ensures
        rels_path@ == rels_path_of(slide_path@),
{
    let chars = chars_of(slide_path);
    let mut rels_path = String::new();
    proof {
        lemma_last_index_of(slide_path@, '/');
    }
    match rfind_char(&chars, '/') {
        Some(cut) => {
            rels_path.append(slide_path.substring_char(0, cut + 1));
            rels_path.append("_rels/");
            rels_path.append(slide_path.substring_char(cut + 1, chars.len()));
            proof {
                assert(slide_path@.subrange(0, cut + 1) == slide_path@.take(cut + 1));
                assert(slide_path@.subrange(cut + 1, chars.len() as int) == slide_path@.skip(
                    cut + 1,
                ));
            }
        },
        None => {
            rels_path.append(slide_path);
        },
    }
    rels_path.append(".rels");
    proof {
        assert(rels_path@ =~= rels_path_of(slide_path@));
    }
    rels_path
}

/// `s` without any `prefix` in front, however often it is repeated there.
pub open spec fn without_leading(s: Seq<char>, prefix: Seq<char>) -> Seq<char>
    decreases s.len(),
{
    if prefix.len() > 0 && starts_with(s, prefix) {
        without_leading(s.skip(prefix.len() as int), prefix)
    } else {
        s
    }
}

/// Where in the archive the target of a slide's relationship lies: a target
/// that starts with `../` is taken from `ppt/`, any other from the directory
/// of the slide.
pub open spec fn full_image_path_of(slide_path: Seq<char>, target: Seq<char>) -> Seq<char> {
    if starts_with(target, "../"@) {
        "ppt/"@ + without_leading(target, "../"@)
    } else {
        let cut = last_index_of(slide_path, '/');
        let directory = if cut >= 0 {
            slide_path.take(cut)
        } else {
            Seq::empty()
        };
        directory + "/"@ + target
    }
}

/// Where in the archive the target of a slide's relationship lies.
pub fn full_image_path(slide_path: &str, target: &str) -> (path: String)
    ensures
        path@ == full_image_path_of(slide_path@, target@),
{
    let chars = chars_of(target);
    let up = chars_of("../");
    let mut path = String::new();
    if has_prefix(&chars, &up) {
        proof {
            reveal_strlit("../");
        }
        let mut from: usize = up.len();
        while has_prefix_at(&chars, from, &up)
            invariant
                from <= chars.len(),
                up@ == "../"@,
                up@.len() == 3,
                chars@ == target@,
                without_leading(target@, "../"@) == without_leading(
                    chars@.skip(from as int),
                    "../"@,
                ),
            decreases chars.len() - from,
        {
            proof {
                assert(chars@.skip(from as int).skip(3) == chars@.skip(from + 3));
            }
            from += up.len();
        }
        proof {
            assert(target@.subrange(from as int, chars.len() as int) == chars@.skip(
                from as int,
            ));
        }
        path.append("ppt/");
        path.append(target.substring_char(from, chars.len()));
    } else {
        let slide_chars = chars_of(slide_path);
        proof {
            lemma_last_index_of(slide_path@, '/');
        }
        match rfind_char(&slide_chars, '/') {
            Some(cut) => {
                path.append(slide_path.substring_char(0, cut));
                proof {
                    assert(slide_path@.subrange(0, cut as int) == slide_path@.take(cut as int));
                }
            },
            None => {},
        }
        path.append("/");
        path.append(target);
    }
    proof {
        assert(path@ =~= full_image_path_of(slide_path@, target@));
    }
    path
}

/// Whether an entry of the archive is a slide: its path starts with
/// `ppt/slides/slide` and ends with `.xml`.
pub open spec fn is_slide_path(name: Seq<char>) -> bool {
    starts_with(name, "ppt/slides/slide"@) && ends_with(name, ".xml"@)
}

/// Whether an entry of the archive is a slide.
pub fn names_slide(name: &str) -> (yes: bool)
    ensures
        yes == is_slide_path(name@),
{
    let chars = chars_of(name);
    has_prefix(&chars, &chars_of("ppt/slides/slide")) && has_suffix(&chars, &chars_of(".xml"))
}

/// The last component of a path whose components are parted by `/`: empty
/// components and `.` at the end are passed over, and a path that ends in
/// `..`, or holds nothing else, has none.
pub open spec fn file_name_of(path: Seq<char>) -> Option<Seq<char>>
    decreases path.len(),
{
    let cut = last_index_of(path, '/');
    let segment = path.skip(cut + 1);
    if segment.len() == 0 || segment == seq!['.'] {
        if 0 <= cut < path.len() {
            file_name_of(path.take(cut))
        } else {
            None
        }
    } else if segment == seq!['.', '.'] {
        None
    } else {
        Some(segment)
    }
}

/// What follows the last full stop of a file name, where one stands behind
/// its first character.
pub open spec fn extension_of(file_name: Seq<char>) -> Option<Seq<char>> {
    let dot = last_index_of(file_name, '.');
    if dot <= 0 {
        None
    } else {
        Some(file_name.skip(dot + 1))
    }
}

/// The extension of the file that a path names, and `bin` where it has none.
pub open spec fn image_extension_of(path: Seq<char>) -> Seq<char> {
    match file_name_of(path) {
        Some(name) => match extension_of(name) {
            Some(extension) => extension,
            None => "bin"@,
        },
        None => "bin"@,
    }
}

/// The last component of a path, as `file_name_of` defines it.
pub fn file_name(path: &Vec<char>) -> (name: Option<Vec<char>>)
    ensures
        match name {
            Some(chars) => file_name_of(path@) == Some(chars@),
            None => file_name_of(path@) is None,
        },
{
    let mut end: usize = path.len();
    proof {
        assert(path@.take(end as int) == path@);
    }
    loop
        invariant
            end <= path.len(),
            file_name_of(path@) == file_name_of(path@.take(end as int)),
        decreases end,
    {
        let ghost rest = path@.take(end as int);
        let cut = rfind_char_before(path, '/', end);
        let from: usize = match cut {
            Some(i) => i + 1,
            None => 0,
        };
        proof {
            lemma_last_index_of(rest, '/');
        }
        let segment = slice_chars(path, from, end);
        proof {
            assert(path@.subrange(from as int, end as int) == rest.skip(from as int));
        }
        let is_dot = segment.len() == 1 && segment[0] == '.';
        let is_dot_dot = segment.len() == 2 && segment[0] == '.' && segment[1] == '.';
        proof {
            assert(is_dot == (segment@ == seq!['.'])) by {
                if is_dot {
                    assert(segment@ =~= seq!['.']);
                }
            }
            assert(is_dot_dot == (segment@ == seq!['.', '.'])) by {
                if is_dot_dot {
                    assert(segment@ =~= seq!['.', '.']);
                }
            }
        }
        if segment.len() == 0 || is_dot {
            match cut {
                Some(i) => {
                    proof {
                        assert(rest.take(i as int) == path@.take(i as int));
                    }
                    end = i;
                },
                None => {
                    return None;
                },
            }
        } else if is_dot_dot {
            return None;
        } else {
            return Some(segment);
        }
    }
}

/// The extension of the file that a path names, and `bin` where it has none.
pub fn image_extension(path: &str) -> (extension: String)
    ensures
        extension@ == image_extension_of(path@),
{
    let chars = chars_of(path);
    match file_name(&chars) {
        Some(name) => {
            proof {
                lemma_last_index_of(name@, '.');
            }
            match rfind_char(&name, '.') {
                Some(dot) => {
                    if dot == 0 {
                        String::from_str("bin")
                    } else {
                        let extension = slice_chars(&name, dot + 1, name.len());
                        proof {
                            assert(name@.subrange(dot + 1, name.len() as int) == name@.skip(
                                dot + 1,
                            ));
                        }
                        string_from_chars(&extension)
                    }
                },
                None => String::from_str("bin"),
            }
        },
        None => String::from_str("bin"),
    }
}

/// `s` with every `from` turned into `to`.
pub open spec fn with_replaced(s: Seq<char>, from: char, to: char) -> Seq<char> {
    Seq::new(s.len(), |i: int| if s[i] == from { to } else { s[i] })
}

/// The `file:` URL of an absolute path. Backslashes become slashes. On
/// Windows the prefix `//?/` of a verbatim path is left out and the URL has a
/// third slash in front of the drive.
pub open spec fn file_url_of(absolute_path: Seq<char>, windows: bool) -> Seq<char> {
    let slashed = with_replaced(absolute_path, '\\', '/');
    if windows {
        if starts_with(slashed, "//?/"@) {
            "file:///"@ + slashed.skip("//?/"@.len() as int)
        } else {
            "file:///"@ + slashed
        }
    } else {
        "file://"@ + slashed
    }
}

/// The `file:` URL of an absolute path.
pub fn path_to_file_url(absolute_path: &str, windows: bool) -> (url: String)
    ensures
        url@ == file_url_of(absolute_path@, windows),
{
    let chars = chars_of(absolute_path);
    let mut slashed: Vec<char> = Vec::new();
    let mut i: usize = 0;
    while i < chars.len()
        invariant
            i <= chars.len(),
            slashed@ == with_replaced(chars@.take(i as int), '\\', '/'),
        decreases chars.len() - i,
    {
        let c = chars[i];
        slashed.push(if c == '\\' {
            '/'
        } else {
            c
        });
        proof {
            assert(slashed@ =~= with_replaced(chars@.take(i + 1), '\\', '/'));
        }
        i += 1;
    }
    proof {
        assert(chars@.take(chars.len() as int) == chars@);
    }
    let mut url = String::new();
    if windows {
        url.append("file:///");
        let verbatim = chars_of("//?/");
        if has_prefix(&slashed, &verbatim) {
            let rest = slice_chars(&slashed, verbatim.len(), slashed.len());
            proof {
                assert(slashed@.subrange(verbatim.len() as int, slashed.len() as int)
                    == slashed@.skip(verbatim.len() as int));
            }
            url.append(string_from_chars(&rest).as_str());
        } else {
            url.append(string_from_chars(&slashed).as_str());
        }
    } else {
        url.append("file://");
        url.append(string_from_chars(&slashed).as_str());
    }
    proof {
        assert(url@ =~= file_url_of(absolute_path@, windows));
    }
    url
}

} // verus!
