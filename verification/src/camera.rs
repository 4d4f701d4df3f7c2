//! Which cameras there are, and which of them is a phone.
use crate::text::{decimal, push_decimal};
use vstd::prelude::*;

verus! {

/// How a camera is addressed.
#[derive(Debug)]
pub enum CameraId {
    /// By a number.
    Index(u32),
    /// By a name.
    Name(String),
}

/// A camera, as the system describes it.
#[derive(Debug)]
pub struct CameraEntry {
    pub id: CameraId,
    pub human_name: String,
    pub description: String,
}

/// A camera that was picked, and what to tell the user of it.
#[derive(Debug)]
pub struct Pick {
    pub index: u32,
    pub notice: String,
}

/// What `str::to_lowercase` gives.
pub uninterp spec fn lowercase(s: Seq<char>) -> Seq<char>;

/// `str::to_lowercase` gives the lower case of a text, by the tables of Unicode.
pub assume_specification[ str::to_lowercase ](s: &str) -> (r: String)
    ensures
        r@ == lowercase(s@),
;

/// One text occurs within another.
pub open spec fn occurs(needle: Seq<char>, hay: Seq<char>) -> bool {
    exists|i: int|
        0 <= i && i + needle.len() <= hay.len() && #[trigger] hay.subrange(i, i + needle.len()) == needle
}

/// Calls `str::contains`, which tells whether a text occurs within another.
#[verifier::external_body]
fn contains(hay: &str, needle: &str) -> (r: bool)
    ensures
        r == occurs(needle@, hay@),
{
    hay.contains(needle)
}

/// A camera is a phone by its description, unless it is that of the desk view,
/// which the phone offers besides. Both texts are in lower case.
pub open spec fn is_phone(description: Seq<char>, name: Seq<char>) -> bool {
    &&& occurs("avcapturedevicetypecontinuitycamera"@, description) || occurs(
        "avcapturedevicetypeexternal"@,
        description,
    ) || occurs("iphone"@, description)
    &&& !occurs("desk view"@, name)
    &&& !occurs("desk view"@, description)
}

/// Whether a camera is a phone, by its description and name in lower case.
pub fn looks_like_phone(description: &str, name: &str) -> (r: bool)
    ensures
        r == is_phone(description@, name@),
{
    let phone = contains(description, "avcapturedevicetypecontinuitycamera") || contains(
        description,
        "avcapturedevicetypeexternal",
    ) || contains(description, "iphone");
    let desk = contains(name, "desk view") || contains(description, "desk view");
    phone && !desk
}

/// A camera that can be picked: a phone that has a number.
pub open spec fn is_candidate(c: CameraEntry) -> bool {
    &&& is_phone(lowercase(c.description@), lowercase(c.human_name@))
    &&& c.id is Index
}

/// What the user is told of the camera that was picked.
pub open spec fn pick_notice(index: nat, name: Seq<char>) -> Seq<char> {
    "using Continuity Camera at index "@ + decimal(index) + ": "@ + name
}

/// What the user is told where there is none.
pub open spec fn no_phone_text() -> Seq<char> {
    "No Continuity Camera found. Wake your iPhone, make sure both devices are signed into the same Apple ID, and keep them nearby with Wi-Fi + Bluetooth on."@
}

/// What is picked among cameras: the first that can be.
pub open spec fn picked(cams: Seq<CameraEntry>, r: Result<Pick, String>) -> bool {
    match r {
        Ok(pick) => exists|k: int|
            {
                &&& 0 <= k < cams.len()
                &&& is_candidate(#[trigger] cams[k])
                &&& forall|j: int| 0 <= j < k ==> !is_candidate(#[trigger] cams[j])
                &&& cams[k].id == CameraId::Index(pick.index)
                &&& pick.notice@ == pick_notice(pick.index as nat, cams[k].human_name@)
            },
        Err(message) => {
            &&& forall|j: int| 0 <= j < cams.len() ==> !is_candidate(#[trigger] cams[j])
            &&& message@ == no_phone_text()
        },
    }
}

/// The first phone among the cameras that has a number.
pub fn pick_continuity_index(cams: &Vec<CameraEntry>) -> (r: Result<Pick, String>)
    ensures
        picked(cams@, r),
{
    let mut i: usize = 0;
    while i < cams.len()
        invariant
            i <= cams@.len(),
            forall|j: int| 0 <= j < i ==> !is_candidate(#[trigger] cams@[j]),
        decreases cams@.len() - i,
    {
        let c = &cams[i];
        let description = c.description.as_str().to_lowercase();
        let name = c.human_name.as_str().to_lowercase();
        if looks_like_phone(description.as_str(), name.as_str()) {
            if let CameraId::Index(index) = &c.id {
                let mut notice = "using Continuity Camera at index ".to_owned();
                push_decimal(&mut notice, *index as u64);
                notice.append(": ");
                notice.append(c.human_name.as_str());
                assert(is_candidate(cams@[i as int]));
                return Ok(Pick { index: *index, notice });
            }
        }
        i = i + 1;
    }
    Err(
        "No Continuity Camera found. Wake your iPhone, make sure both devices are signed into the same Apple ID, and keep them nearby with Wi-Fi + Bluetooth on.".to_owned(),
    )
}

/// How a camera is addressed, as text.
pub open spec fn id_text(id: CameraId) -> Seq<char> {
    match id {
        CameraId::Index(i) => decimal(i as nat),
        CameraId::Name(s) => s@,
    }
}

/// The line of a camera.
pub open spec fn camera_line(c: CameraEntry) -> Seq<char> {
    "  ["@ + id_text(c.id) + "] "@ + c.human_name@ + "  \u{2014}  "@ + c.description@ + "\n"@
}

/// The lines of cameras.
pub open spec fn camera_lines(cams: Seq<CameraEntry>) -> Seq<char>
    decreases cams.len(),
{
    if cams.len() == 0 {
        Seq::empty()
    } else {
        camera_lines(cams.drop_last()) + camera_line(cams.last())
    }
}

/// The list of the cameras, and, on a Mac that has none, how to get one.
pub open spec fn camera_list(cams: Seq<CameraEntry>, macos: bool) -> Seq<char> {
    if cams.len() == 0 {
        "No cameras found.\n"@ + (if macos {
            "Tip: for iPhone Continuity Camera, sign in to the same Apple ID on both devices, keep them nearby with Wi-Fi + Bluetooth on, and unlock the iPhone.\n"@
        } else {
            Seq::empty()
        })
    } else {
        decimal(cams.len()) + " camera(s) available:\n"@ + camera_lines(cams)
    }
}

/// How a camera is addressed, as text.
fn push_id(out: &mut String, id: &CameraId)
    ensures
        final(out)@ == old(out)@ + id_text(*id),
{
    match id {
        CameraId::Index(n) => push_decimal(out, *n as u64),
        CameraId::Name(s) => out.append(s.as_str()),
    }
}

/// The line of a camera.
fn line_of(c: &CameraEntry) -> (out: String)
    ensures
        out@ == camera_line(*c),
{
    let mut out = "  [".to_owned();
    push_id(&mut out, &c.id);
    out.append("] ");
    out.append(c.human_name.as_str());
    out.append("  \u{2014}  ");
    out.append(c.description.as_str());
    out.append("\n");
    out
}

/// The list of the cameras.
pub fn list_cameras(cams: &Vec<CameraEntry>, macos: bool) -> (out: String)
    ensures
        out@ == camera_list(cams@, macos),
{
    if cams.len() == 0 {
        let mut out = "No cameras found.\n".to_owned();
        if macos {
            out.append(
                "Tip: for iPhone Continuity Camera, sign in to the same Apple ID on both devices, keep them nearby with Wi-Fi + Bluetooth on, and unlock the iPhone.\n",
            );
        }
        assert(!macos ==> out@ + Seq::<char>::empty() =~= out@);
        return out;
    }
    let mut lines = String::new();
    let mut i: usize = 0;
    assert(cams@.take(0) =~= Seq::<CameraEntry>::empty());
    while i < cams.len()
        invariant
            i <= cams@.len(),
            lines@ == camera_lines(cams@.take(i as int)),
        decreases cams@.len() - i,
    {
        let line = line_of(&cams[i]);
        lines.append(line.as_str());
        proof {
            let next = cams@.take(i + 1);
            assert(next.drop_last() =~= cams@.take(i as int));
            assert(next.last() == cams@[i as int]);
        }
        i = i + 1;
    }
    assert(cams@.take(cams@.len() as int) =~= cams@);
    let mut out = String::new();
    push_decimal(&mut out, cams.len() as u64);
    assert(out@ =~= decimal(cams@.len()));
    out.append(" camera(s) available:\n");
    out.append(lines.as_str());
    out
}

/// A text occurs within another where that is the text with something before and
/// something after it.
pub proof fn law_occurs_within(before: Seq<char>, needle: Seq<char>, after: Seq<char>, hay: Seq<char>)
    ensures
        occurs(needle, before + needle + after),
        occurs(needle, hay) ==> exists|a: Seq<char>, b: Seq<char>| hay == #[trigger] (a + needle + b),
{
    let whole = before + needle + after;
    assert(whole.subrange(before.len() as int, before.len() as int + needle.len()) =~= needle);
    if occurs(needle, hay) {
        let i = choose|i: int|
            0 <= i && i + needle.len() <= hay.len() && #[trigger] hay.subrange(i, i + needle.len())
                == needle;
        let a = hay.subrange(0, i);
        let b = hay.subrange(i + needle.len(), hay.len() as int);
        assert(hay =~= a + hay.subrange(i, i + needle.len()) + b);
    }
}

/// A camera that was picked has the number that is given. Its description tells
/// that it is a phone, and neither its name nor its description holds the words
/// "desk view", in whatever case, whatever else they hold. The user is told the
/// number and the name.
pub proof fn law_desk_view_is_never_picked(cams: Seq<CameraEntry>, pick: Pick)
    requires
        picked(cams, Ok(pick)),
    ensures
        exists|k: int|
            {
                let c = #[trigger] cams[k];
                let description = lowercase(c.description@);
                &&& 0 <= k < cams.len()
                &&& c.id == CameraId::Index(pick.index)
                &&& occurs("iphone"@, description) || occurs(
                    "avcapturedevicetypecontinuitycamera"@,
                    description,
                ) || occurs("avcapturedevicetypeexternal"@, description)
                &&& !occurs("desk view"@, lowercase(c.human_name@))
                &&& !occurs("desk view"@, description)
                &&& occurs(c.human_name@, pick.notice@)
                &&& occurs(decimal(pick.index as nat), pick.notice@)
            },
{
    let k = choose|k: int|
        {
            &&& 0 <= k < cams.len()
            &&& is_candidate(#[trigger] cams[k])
            &&& forall|j: int| 0 <= j < k ==> !is_candidate(#[trigger] cams[j])
            &&& cams[k].id == CameraId::Index(pick.index)
            &&& pick.notice@ == pick_notice(pick.index as nat, cams[k].human_name@)
        };
    let start = "using Continuity Camera at index "@;
    let number = decimal(pick.index as nat);
    let name = cams[k].human_name@;
    law_occurs_within(start + number + ": "@, name, Seq::empty(), name);
    assert(start + number + ": "@ + name + Seq::<char>::empty() =~= pick.notice@);
    law_occurs_within(start, number, ": "@ + name, number);
    assert(start + number + (": "@ + name) =~= pick.notice@);
}

/// Where there is a camera with a number whose description tells that it is a
/// phone, in any of the three ways, and which is no desk view, one is picked, and
/// none that stands after it.
pub proof fn law_first_phone_is_picked(cams: Seq<CameraEntry>, r: Result<Pick, String>, j: int, marker: Seq<char>)
    requires
        picked(cams, r),
        0 <= j < cams.len(),
        cams[j].id is Index,
        marker == "iphone"@ || marker == "avcapturedevicetypecontinuitycamera"@ || marker
            == "avcapturedevicetypeexternal"@,
        occurs(marker, lowercase(cams[j].description@)),
        !occurs("desk view"@, lowercase(cams[j].human_name@)),
        !occurs("desk view"@, lowercase(cams[j].description@)),
    ensures
        r matches Ok(pick) && exists|k: int|
            0 <= k <= j && (#[trigger] cams[k]).id == CameraId::Index(pick.index) && occurs(
                cams[k].human_name@,
                pick.notice@,
            ),
{
    assert(is_candidate(cams[j]));
    if let Ok(pick) = r {
        let k = choose|k: int|
            {
                &&& 0 <= k < cams.len()
                &&& is_candidate(#[trigger] cams[k])
                &&& forall|j: int| 0 <= j < k ==> !is_candidate(#[trigger] cams[j])
                &&& cams[k].id == CameraId::Index(pick.index)
                &&& pick.notice@ == pick_notice(pick.index as nat, cams[k].human_name@)
            };
        let start = "using Continuity Camera at index "@ + decimal(pick.index as nat) + ": "@;
        let name = cams[k].human_name@;
        law_occurs_within(start, name, Seq::empty(), name);
        assert(start + name + Seq::<char>::empty() =~= pick.notice@);
    }
}

/// The list of cameras starts with their number, and every camera has a line of
/// its own in it, in order: one more camera adds its line at the end, with how it
/// is addressed, its name and its description.
pub proof fn law_every_camera_is_listed(cams: Seq<CameraEntry>, c: CameraEntry, macos: bool)
    ensures
        ({
            let head = decimal(cams.len() + 1) + " camera(s) available:\n"@;
            let lines = camera_lines(cams);
            &&& camera_list(cams.push(c), macos) == head + lines + camera_line(c)
            &&& cams.len() > 0 ==> camera_list(cams, macos) == decimal(cams.len())
                + " camera(s) available:\n"@ + lines
            &&& cams.len() == 0 ==> lines.len() == 0
            &&& occurs(c.human_name@, camera_line(c))
            &&& occurs(c.description@, camera_line(c))
            &&& c.id matches CameraId::Index(i) ==> occurs("["@ + decimal(i as nat) + "]"@, camera_line(c))
            &&& c.id matches CameraId::Name(s) ==> occurs("["@ + s@ + "]"@, camera_line(c))
            &&& camera_line(c).last() == '\n'
        }),
{
    reveal_strlit("  [");
    reveal_strlit("[");
    reveal_strlit("]");
    reveal_strlit("] ");
    reveal_strlit("\n");
    assert(cams.push(c).drop_last() =~= cams);
    let head = decimal(cams.len() + 1) + " camera(s) available:\n"@;
    assert(head + (camera_lines(cams) + camera_line(c)) =~= head + camera_lines(cams) + camera_line(c));
    let (name, description) = (c.human_name@, c.description@);
    let a = "  ["@ + id_text(c.id) + "] "@;
    let b = "  \u{2014}  "@;
    law_occurs_within(a, name, b + description + "\n"@, name);
    assert(a + name + (b + description + "\n"@) =~= camera_line(c));
    law_occurs_within(a + name + b, description, "\n"@, name);
    assert(a + name + b + description + "\n"@ =~= camera_line(c));
    let id = "["@ + id_text(c.id) + "]"@;
    let before = seq![' ', ' '];
    let after = seq![' '] + name + b + description + "\n"@;
    law_occurs_within(before, id, after, id);
    assert(before + id + after =~= camera_line(c));
}

/// Where there are cameras, the list is the same on a Mac; where there is none, it
/// says so, and has a tip at its end on a Mac alone.
pub proof fn law_tip_is_for_macs(cams: Seq<CameraEntry>)
    ensures
        cams.len() > 0 ==> camera_list(cams, true) == camera_list(cams, false),
        cams.len() == 0 ==> {
            let plain = camera_list(cams, false);
            &&& plain == "No cameras found.\n"@
            &&& camera_list(cams, true).len() > plain.len()
            &&& camera_list(cams, true).take(plain.len() as int) == plain
            &&& occurs("Continuity"@, camera_list(cams, true))
        },
{
    if cams.len() == 0 {
        let none = "No cameras found.\n"@;
        let tip = "Tip: for iPhone Continuity Camera, sign in to the same Apple ID on both devices, keep them nearby with Wi-Fi + Bluetooth on, and unlock the iPhone.\n"@;
        reveal_strlit("Tip: for iPhone Continuity Camera, sign in to the same Apple ID on both devices, keep them nearby with Wi-Fi + Bluetooth on, and unlock the iPhone.\n");
        reveal_strlit("Continuity");
        assert(camera_list(cams, false) =~= none);
        assert(camera_list(cams, true) =~= none + tip);
        assert((none + tip).take(none.len() as int) =~= none);
        let word = tip.subrange(16, 26);
        assert(word =~= "Continuity"@);
        law_occurs_within(none + tip.take(16), word, tip.skip(26), word);
        assert(none + tip.take(16) + word + tip.skip(26) =~= none + tip);
    }
}

} // verus!
