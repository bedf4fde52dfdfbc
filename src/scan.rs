use vstd::prelude::*;
use crate::frames::Frames;
use crate::streak::{Streak, StreakView};
use crate::text::{chars_of, digits_end, is_digit, is_number, number_in, number_value};

verus! {

/// Whether a character is a letter or a digit in the Unicode sense.
pub uninterp spec fn unicode_alphanumeric(c: char) -> bool;

/// Relies on char::is_alphanumeric: whether `c` is alphabetic or numeric in
/// Unicode, which depends on the character alone.
#[verifier::external_body]
fn alphanumeric(c: char) -> (r: bool)
    ensures
        r == unicode_alphanumeric(c),
{
    c.is_alphanumeric()
}

/// Letters, digits and the underscore. The dot, which separates the parts
/// of a file name, is never one.
pub open spec fn is_word_char(c: char) -> bool {
    c != '.' && (unicode_alphanumeric(c) || c == '_')
}

pub open spec fn is_word(s: Seq<char>) -> bool {
    s.len() > 0 && forall|i: int| 0 <= i < s.len() ==> is_word_char(#[trigger] s[i])
}

/// `f` reads `name.digits.ext`.
pub open spec fn is_sequence_file(f: Seq<char>, name: Seq<char>, digits: Seq<char>, ext: Seq<char>) -> bool {
    &&& is_word(name)
    &&& is_number(digits)
    &&& is_word(ext)
    &&& f == name + seq!['.'] + digits + seq!['.'] + ext
}

/// What a file name contributes: its name, extension, frame number and the
/// width of its frame digits; `None` where it is no sequence file, or where
/// its frame number does not fit in a `u32`.
pub open spec fn file_entry(f: Seq<char>) -> Option<(Seq<char>, Seq<char>, nat, nat)> {
    if exists|name: Seq<char>, digits: Seq<char>, ext: Seq<char>|
        is_sequence_file(f, name, digits, ext) {
        let (name, digits, ext) = choose|name: Seq<char>, digits: Seq<char>, ext: Seq<char>|
            is_sequence_file(f, name, digits, ext);
        if number_value(digits) <= u32::MAX {
            Some((name, ext, number_value(digits), digits.len()))
        } else {
            None
        }
    } else {
        None
    }
}

/// One numbered file: `name.frame.ext`, its frame written with `width` digits.
pub struct FileEntry {
    pub name: String,
    pub ext: String,
    pub frame: u32,
    pub width: u32,
}

/// Index just past the run of word characters that starts at `from`.
fn word_end(cs: &Vec<char>, from: usize) -> (end: usize)
    requires
        from <= cs@.len(),
    ensures
        from <= end <= cs@.len(),
        forall|i: int| from <= i < end ==> is_word_char(#[trigger] cs@[i]),
        end == cs@.len() || !is_word_char(cs@[end as int]),
{
    let mut end = from;
    while end < cs.len() && cs[end] != '.' && (alphanumeric(cs[end]) || cs[end] == '_')
        invariant
            from <= end <= cs@.len(),
            forall|i: int| from <= i < end ==> is_word_char(#[trigger] cs@[i]),
        decreases cs@.len() - end,
    {
        end += 1;
    }
    end
}

/// Splits a file name of the shape `name.digits.ext`.
pub fn parse_file_name(f: &str) -> (r: Option<FileEntry>)
    requires
        f@.len() <= u32::MAX,
    ensures
        match r {
            Some(x) => file_entry(f@) == Some((x.name@, x.ext@, x.frame as nat, x.width as nat)),
            None => file_entry(f@) is None,
        },
{
    let cs = chars_of(f);
    let ghost s = f@;
    let n = cs.len();
    let a = word_end(&cs, 0);
    proof {
        assert forall|name: Seq<char>, digits: Seq<char>, ext: Seq<char>|
            is_sequence_file(s, name, digits, ext) implies name.len() == a by {
            let l = name.len() as int;
            assert(s[l] == '.');
            if l < a {
                assert(is_word_char(s[l]));
            } else if a < l {
                assert(s[a as int] == name[a as int]);
            }
        }
    }
    if a == 0 || a == n || cs[a] != '.' {
        return None;
    }
    let b = digits_end(&cs, a + 1);
    proof {
        assert forall|name: Seq<char>, digits: Seq<char>, ext: Seq<char>|
            is_sequence_file(s, name, digits, ext) implies digits.len() == b - a - 1 by {
            let l = a + 1 + digits.len();
            assert(s[l] == '.');
            assert forall|k: int| a + 1 <= k < l implies is_digit(#[trigger] s[k]) by {
                assert(s[k] == digits[k - a - 1]);
            }
            if l < b {
                assert(is_digit(s[l]));
            } else if b < l {
                assert(is_digit(s[b as int]));
            }
        }
    }
    if b == a + 1 || b == n || cs[b] != '.' {
        return None;
    }
    let c = word_end(&cs, b + 1);
    proof {
        assert forall|name: Seq<char>, digits: Seq<char>, ext: Seq<char>|
            is_sequence_file(s, name, digits, ext) implies c == n && c > b + 1 by {
            assert forall|k: int| b + 1 <= k < n implies is_word_char(#[trigger] s[k]) by {
                assert(s[k] == ext[k - b - 1]);
            }
            if c < n {
                assert(is_word_char(s[c as int]));
            }
        }
    }
    if c == b + 1 || c != n {
        return None;
    }
    let ghost name = s.take(a as int);
    let ghost digits = s.subrange(a + 1, b as int);
    let ghost ext = s.skip(b + 1);
    proof {
        assert(s =~= name + seq!['.'] + digits + seq!['.'] + ext);
        assert(is_word(name)) by {
            assert forall|k: int| 0 <= k < name.len() implies is_word_char(#[trigger] name[k]) by {
                assert(name[k] == s[k]);
            }
        }
        assert(is_number(digits)) by {
            assert forall|k: int| 0 <= k < digits.len() implies is_digit(#[trigger] digits[k]) by {
                assert(digits[k] == s[a + 1 + k]);
            }
        }
        assert(is_word(ext)) by {
            assert forall|k: int| 0 <= k < ext.len() implies is_word_char(#[trigger] ext[k]) by {
                assert(ext[k] == s[b + 1 + k]);
            }
        }
        assert(is_sequence_file(s, name, digits, ext));
        let (n2, d2, e2) = choose|n2: Seq<char>, d2: Seq<char>, e2: Seq<char>|
            is_sequence_file(s, n2, d2, e2);
        assert(n2 =~= name) by {
            assert forall|k: int| 0 <= k < a implies n2[k] == name[k] by {
                assert(s[k] == n2[k]);
            }
        }
        assert(d2 =~= digits) by {
            assert forall|k: int| 0 <= k < digits.len() implies d2[k] == digits[k] by {
                assert(s[a + 1 + k] == d2[k]);
            }
        }
        assert(e2 =~= ext) by {
            assert forall|k: int| 0 <= k < ext.len() implies e2[k] == ext[k] by {
                assert(s[b + 1 + k] == e2[k]);
            }
        }
    }
    let frame = match number_in(&cs, a + 1, b) {
        Some(v) => v,
        None => {
            return None;
        },
    };
    let name_str = f.substring_char(0, a).to_owned();
    let ext_str = f.substring_char(b + 1, n).to_owned();
    assert(ext_str@ =~= ext);
    Some(FileEntry { name: name_str, ext: ext_str, frame, width: (b - a - 1) as u32 })
}

/// A streak as the aggregator sees it: its frames as a set.
pub struct Group {
    pub name: Seq<char>,
    pub ext: Seq<char>,
    pub padding: u32,
    pub frames: Set<u32>,
}

pub open spec fn group_of(s: StreakView) -> Group {
    Group { name: s.name, ext: s.ext, padding: s.padding, frames: s.frames.to_set() }
}

pub open spec fn groups_of(ss: Seq<Streak>) -> Seq<Group> {
    ss.map_values(|s: Streak| group_of(s@))
}

/// A streak takes a file of its name and extension whose frame digits are
/// at least as many as its own padding width.
pub open spec fn accepts(g: Group, name: Seq<char>, ext: Seq<char>, width: nat) -> bool {
    g.name == name && g.ext == ext && g.padding <= width
}

pub open spec fn is_first_accepting(
    gs: Seq<Group>,
    i: int,
    name: Seq<char>,
    ext: Seq<char>,
    width: nat,
) -> bool {
    &&& 0 <= i < gs.len()
    &&& accepts(gs[i], name, ext, width)
    &&& forall|j: int| 0 <= j < i ==> !accepts(#[trigger] gs[j], name, ext, width)
}

/// The streaks after one more file name: a file of no sequence changes
/// nothing; otherwise its frame joins the first streak that accepts it, or
/// starts a new streak at the end.
pub open spec fn add_file_spec(gs: Seq<Group>, f: Seq<char>) -> Seq<Group> {
    match file_entry(f) {
        None => gs,
        Some((name, ext, frame, width)) => if exists|i: int|
            is_first_accepting(gs, i, name, ext, width) {
            let i = choose|i: int| is_first_accepting(gs, i, name, ext, width);
            gs.update(i, Group { frames: gs[i].frames.insert(frame as u32), ..gs[i] })
        } else {
            gs.push(Group { name, ext, padding: width as u32, frames: set![frame as u32] })
        },
    }
}

/// The streaks found in a list of file names, in order of creation.
pub open spec fn scan_spec(files: Seq<Seq<char>>) -> Seq<Group>
    decreases files.len(),
{
    if files.len() == 0 {
        seq![]
    } else {
        add_file_spec(scan_spec(files.drop_last()), files.last())
    }
}

/// A file name that is not of the shape `name.digits.ext` leaves the
/// streaks as they are.
pub proof fn lemma_other_file_ignored(gs: Seq<Group>, f: Seq<char>)
    requires
        forall|name: Seq<char>, digits: Seq<char>, ext: Seq<char>|
            !is_sequence_file(f, name, digits, ext),
    ensures
        add_file_spec(gs, f) == gs,
{
}

/// File names none of which is of the shape `name.digits.ext` make no streak.
pub proof fn lemma_other_files_make_no_streak(files: Seq<Seq<char>>)
    requires
        forall|i: int, name: Seq<char>, digits: Seq<char>, ext: Seq<char>|
            0 <= i < files.len() ==> !#[trigger] is_sequence_file(files[i], name, digits, ext),
    ensures
        scan_spec(files).len() == 0,
    decreases files.len(),
{
    if files.len() > 0 {
        let rest = files.drop_last();
        assert forall|i: int, name: Seq<char>, digits: Seq<char>, ext: Seq<char>|
            0 <= i < rest.len() implies !#[trigger] is_sequence_file(rest[i], name, digits, ext) by {
            assert(rest[i] == files[i]);
        }
        lemma_other_files_make_no_streak(rest);
        let last = files.last();
        assert forall|name: Seq<char>, digits: Seq<char>, ext: Seq<char>|
            !is_sequence_file(last, name, digits, ext) by {
            assert(last == files[files.len() - 1]);
        }
        lemma_other_file_ignored(scan_spec(rest), last);
    }
}

/// Where some streak accepts a file, a first one does.
proof fn lemma_first_accepting_exists(
    gs: Seq<Group>,
    i: int,
    name: Seq<char>,
    ext: Seq<char>,
    width: nat,
)
    requires
        0 <= i < gs.len(),
        accepts(gs[i], name, ext, width),
    ensures
        exists|k: int| is_first_accepting(gs, k, name, ext, width),
    decreases i,
{
    if exists|j: int| 0 <= j < i && accepts(#[trigger] gs[j], name, ext, width) {
        let j = choose|j: int| 0 <= j < i && accepts(#[trigger] gs[j], name, ext, width);
        lemma_first_accepting_exists(gs, j, name, ext, width);
    } else {
        assert(is_first_accepting(gs, i, name, ext, width));
    }
}

/// Adding the same file name a second time leaves the streaks as the first
/// time left them.
pub proof fn lemma_same_file_twice(gs: Seq<Group>, f: Seq<char>)
    requires
        f.len() <= u32::MAX,
    ensures
        add_file_spec(add_file_spec(gs, f), f) == add_file_spec(gs, f),
{
    if let Some((name, ext, frame, width)) = file_entry(f) {
        let (n0, d0, e0) = choose|n0: Seq<char>, d0: Seq<char>, e0: Seq<char>|
            is_sequence_file(f, n0, d0, e0);
        assert(f.len() == n0.len() + d0.len() + e0.len() + 2);
        assert(width <= u32::MAX);
        let once = add_file_spec(gs, f);
        if exists|i: int| is_first_accepting(gs, i, name, ext, width) {
            let i = choose|i: int| is_first_accepting(gs, i, name, ext, width);
            assert(once[i].frames.contains(frame as u32));
            assert(is_first_accepting(once, i, name, ext, width)) by {
                assert forall|j: int| 0 <= j < i implies !accepts(#[trigger] once[j], name, ext, width) by {
                    assert(once[j] == gs[j]);
                }
            }
            assert forall|k: int| is_first_accepting(once, k, name, ext, width) implies k == i by {
                if k > i {
                    assert(accepts(once[i], name, ext, width));
                }
            }
            assert(once[i].frames.insert(frame as u32) =~= once[i].frames);
            assert(once.update(i, Group { frames: once[i].frames.insert(frame as u32), ..once[i] })
                =~= once);
        } else {
            let j = gs.len() as int;
            assert forall|k: int| 0 <= k < j implies !accepts(#[trigger] gs[k], name, ext, width) by {
                if accepts(gs[k], name, ext, width) {
                    lemma_first_accepting_exists(gs, k, name, ext, width);
                }
            }
            assert(is_first_accepting(once, j, name, ext, width)) by {
                assert forall|k: int| 0 <= k < j implies !accepts(#[trigger] once[k], name, ext, width) by {
                    assert(once[k] == gs[k]);
                }
            }
            assert forall|k: int| is_first_accepting(once, k, name, ext, width) implies k == j by {}
            assert(once[j].frames.insert(frame as u32) =~= once[j].frames);
            assert(once.update(j, Group { frames: once[j].frames.insert(frame as u32), ..once[j] })
                =~= once);
        }
    }
}

/// Folds one file name into the streaks.
pub fn add_file(streaks: &mut Vec<Streak>, filename: &str)
    requires
        filename@.len() <= u32::MAX,
    ensures
        groups_of(final(streaks)@) == add_file_spec(groups_of(old(streaks)@), filename@),
{
    let entry = match parse_file_name(filename) {
        Some(e) => e,
        None => {
            return;
        },
    };
    let ghost gs = groups_of(streaks@);
    let ghost name = entry.name@;
    let ghost ext = entry.ext@;
    let ghost width = entry.width as nat;
    let mut i: usize = 0;
    while i < streaks.len()
        invariant
            i <= streaks@.len(),
            gs == groups_of(streaks@),
            streaks@ == old(streaks)@,
            name == entry.name@ && ext == entry.ext@ && width == entry.width,
            file_entry(filename@) == Some((name, ext, entry.frame as nat, width)),
            forall|j: int| 0 <= j < i ==> !accepts(#[trigger] gs[j], name, ext, width),
        decreases streaks@.len() - i,
    {
        if streaks[i].is_match(&entry.name, &entry.ext, entry.width) {
            assert(is_first_accepting(gs, i as int, name, ext, width));
            assert forall|k: int| is_first_accepting(gs, k, name, ext, width) implies k == i by {
                if k < i {
                    assert(!accepts(gs[k], name, ext, width));
                } else if k > i {
                    assert(!accepts(gs[i as int], name, ext, width));
                }
            }
            let ghost before = streaks@;
            streaks[i].frames_mut().insert(entry.frame);
            assert(groups_of(streaks@) =~= gs.update(
                i as int,
                Group { frames: gs[i as int].frames.insert(entry.frame), ..gs[i as int] },
            )) by {
                assert forall|k: int| 0 <= k < streaks@.len() && k != i implies streaks@[k]
                    == before[k] by {}
            }
            return;
        }
        i += 1;
    }
    assert(!exists|k: int| is_first_accepting(gs, k, name, ext, width));
    let mut frames = Frames::empty();
    frames.insert(entry.frame);
    assert(frames@.to_set() =~= set![entry.frame]);
    let streak = Streak::new(entry.name, entry.ext, entry.width, frames);
    streaks.push(streak);
    assert(groups_of(streaks@) =~= gs.push(
        Group { name, ext, padding: width as u32, frames: set![entry.frame] },
    ));
}

/// The streaks that a list of file names holds, in order of creation.
pub fn scan(filenames: &Vec<String>) -> (r: Vec<Streak>)
    requires
        forall|i: int| 0 <= i < filenames@.len() ==> (#[trigger] filenames@[i])@.len() <= u32::MAX,
    ensures
        groups_of(r@) == scan_spec(filenames@.map_values(|s: String| s@)),
{
    let ghost files = filenames@.map_values(|s: String| s@);
    let mut streaks: Vec<Streak> = Vec::new();
    let mut i: usize = 0;
    assert(groups_of(streaks@) =~= scan_spec(files.take(0)));
    while i < filenames.len()
        invariant
            i <= filenames@.len(),
            files == filenames@.map_values(|s: String| s@),
            forall|k: int| 0 <= k < filenames@.len() ==> (#[trigger] filenames@[k])@.len() <= u32::MAX,
            groups_of(streaks@) == scan_spec(files.take(i as int)),
        decreases filenames@.len() - i,
    {
        add_file(&mut streaks, filenames[i].as_str());
        assert(files.take(i + 1).drop_last() =~= files.take(i as int));
        i += 1;
    }
    assert(files.take(i as int) =~= files);
    streaks
}

} // verus!
