//! The comment that lists the stack on every pull request of it: a
//! manifest for machines, then the stack for readers.

use crate::error::{Error, ErrorView};
use crate::name_map::NameMap;
use crate::submit::plan::{PlanView, SubmissionPlan};
use crate::text::{
    contains_text, decimal, decimal_text, join, text_contains, text_starts_with,
};
use crate::types::{
    pr_views, NarrowedSegmentView, PrComment, PrCommentView, PullRequest, PullRequestView,
};
use vstd::prelude::*;
use vstd::utf8::encode_utf8;

verus! {

/// What the data of a stack comment starts with.
pub const COMMENT_DATA_PREFIX: &'static str = "<!--- JJ-RYU_STACK: ";

/// What the data of a stack comment started with in earlier days; such
/// comments are still found and replaced.
pub const COMMENT_DATA_PREFIX_OLD: &'static str = "<!--- JJ-STACK_INFO: ";

/// What the data of a stack comment ends with.
pub const COMMENT_DATA_POSTFIX: &'static str = " --->";

/// The mark behind the pull request that a comment sits on.
pub const STACK_COMMENT_THIS_PR: &'static str = "👈";

/// The line that closes every stack comment.
pub const STACK_COMMENT_FOOTER: &'static str =
    "\n---\nThis stack of pull requests is managed by [jj-ryu](https://github.com/dmmulroy/jj-ryu).";

/// The version of the manifest.
pub const STACK_COMMENT_VERSION: u8 = 1;

/// One pull request of the stack, as the manifest lists it.
#[derive(Debug, PartialEq, Eq)]
pub struct StackItem {
    /// Name of the bookmark.
    pub bookmark_name: String,
    /// Web address of the pull request.
    pub pr_url: String,
    /// Number of the pull request.
    pub pr_number: u64,
    /// Title of the pull request.
    pub pr_title: String,
}

/// The view of a [`StackItem`].
pub struct StackItemView {
    pub bookmark_name: Seq<char>,
    pub pr_url: Seq<char>,
    pub pr_number: u64,
    pub pr_title: Seq<char>,
}

impl View for StackItem {
    type V = StackItemView;

    open spec fn view(&self) -> StackItemView {
        StackItemView {
            bookmark_name: self.bookmark_name@,
            pr_url: self.pr_url@,
            pr_number: self.pr_number,
            pr_title: self.pr_title@,
        }
    }
}

impl DeepView for StackItem {
    type V = StackItemView;

    open spec fn deep_view(&self) -> StackItemView {
        self@
    }
}

impl Clone for StackItem {
    fn clone(&self) -> (r: Self)
        ensures
            r@ == self@,
    {
        StackItem {
            bookmark_name: self.bookmark_name.clone(),
            pr_url: self.pr_url.clone(),
            pr_number: self.pr_number,
            pr_title: self.pr_title.clone(),
        }
    }
}

/// The manifest of a stack: its pull requests from root to leaf, and the
/// branch that the root is based on.
#[derive(Debug, PartialEq, Eq)]
pub struct StackCommentData {
    /// Version of the manifest.
    pub version: u8,
    /// The pull requests, root first.
    pub stack: Vec<StackItem>,
    /// The branch below the root.
    pub base_branch: String,
}

/// The view of a [`StackCommentData`].
pub struct StackCommentView {
    pub version: u8,
    pub stack: Seq<StackItemView>,
    pub base_branch: Seq<char>,
}

impl View for StackCommentData {
    type V = StackCommentView;

    open spec fn view(&self) -> StackCommentView {
        StackCommentView {
            version: self.version,
            stack: self.stack.deep_view(),
            base_branch: self.base_branch@,
        }
    }
}

impl Clone for StackCommentData {
    fn clone(&self) -> (r: Self)
        ensures
            r@ == self@,
    {
        let mut stack: Vec<StackItem> = Vec::new();
        let mut i: usize = 0;
        while i < self.stack.len()
            invariant
                i <= self.stack.len(),
                stack.len() == i,
                forall|k: int| 0 <= k < i ==> stack@[k]@ == self.stack@[k]@,
            decreases self.stack.len() - i,
        {
            stack.push(self.stack[i].clone());
            i += 1;
        }
        assert(stack.deep_view() =~= self.stack.deep_view());
        StackCommentData { version: self.version, stack, base_branch: self.base_branch.clone() }
    }
}

/// The items for the segments whose bookmark has a pull request, in the
/// order of the segments.
pub open spec fn stack_items(
    segments: Seq<NarrowedSegmentView>,
    prs: Map<Seq<char>, PullRequestView>,
) -> Seq<StackItemView>
    decreases segments.len(),
{
    if segments.len() == 0 {
        Seq::empty()
    } else {
        let rest = stack_items(segments.drop_last(), prs);
        let name = segments.last().bookmark.name;
        if prs.contains_key(name) {
            rest.push(
                StackItemView {
                    bookmark_name: name,
                    pr_url: prs[name].html_url,
                    pr_number: prs[name].number,
                    pr_title: prs[name].title,
                },
            )
        } else {
            rest
        }
    }
}

/// The manifest for a plan and the pull requests known after it ran.
pub open spec fn stack_comment_data(plan: PlanView, prs: Map<Seq<char>, PullRequestView>)
    -> StackCommentView {
    StackCommentView {
        version: 1,
        stack: stack_items(plan.segments, prs),
        base_branch: plan.default_branch,
    }
}

/// Builds the manifest of the stack: one item for each segment of the plan
/// whose bookmark has a pull request, root first.
pub fn build_stack_comment_data(plan: &SubmissionPlan, bookmark_to_pr: &NameMap<PullRequest>) -> (data:
    StackCommentData)
    ensures
        data@ == stack_comment_data(plan@, pr_views(bookmark_to_pr@)),
{
    let ghost segments = plan@.segments;
    let ghost prs = pr_views(bookmark_to_pr@);
    let mut stack: Vec<StackItem> = Vec::new();
    let mut i: usize = 0;
    assert(segments.take(0) =~= Seq::empty());
    assert(stack.deep_view() =~= Seq::empty());
    while i < plan.segments.len()
        invariant
            segments == plan@.segments,
            prs == pr_views(bookmark_to_pr@),
            i <= plan.segments.len(),
            stack.deep_view() == stack_items(segments.take(i as int), prs),
        decreases plan.segments.len() - i,
    {
        let segment = &plan.segments[i];
        proof {
            assert(segments.take(i + 1).drop_last() =~= segments.take(i as int));
            assert(segments.take(i + 1).last() == segment@);
        }
        match bookmark_to_pr.get(segment.bookmark.name.as_str()) {
            Some(pr) => {
                let ghost before = stack.deep_view();
                let item = StackItem {
                    bookmark_name: segment.bookmark.name.clone(),
                    pr_url: pr.html_url.clone(),
                    pr_number: pr.number,
                    pr_title: pr.title.clone(),
                };
                stack.push(item);
                assert(stack.deep_view() =~= before.push(item@));
            },
            None => {},
        }
        i += 1;
    }
    assert(segments.take(i as int) =~= segments);
    StackCommentData {
        version: STACK_COMMENT_VERSION,
        stack,
        base_branch: plan.default_branch.clone(),
    }
}

/// The JSON string that `serde_json::to_string` writes for `text`: the text
/// between double quotes, with the escapes that JSON asks for.
pub uninterp spec fn json_text(text: Seq<char>) -> Seq<char>;

/// The text that the standard base64 engine writes for `bytes`.
pub uninterp spec fn base64_text(bytes: Seq<u8>) -> Seq<char>;

/// Calls `serde_json::to_string` on a string slice. The serializer writes a
/// string slice into a byte vector: a quote, the runs of the text with the
/// escapes between them, a quote. Its only errors are those of the writer,
/// and a write into a vector reports none. So the contract says that the call
/// succeeds, and gives the string its name.
#[verifier::external_body]
fn json_string(text: &str) -> (r: Result<String, String>)
    ensures
        r is Ok,
        r->Ok_0@ == json_text(text@),
{
    match serde_json::to_string(text) {
        Ok(json) => Ok(json),
        Err(error) => Err(error.to_string()),
    }
}

/// Calls `Engine::encode` of base64's `STANDARD` engine, which returns the
/// padded base64 text of the bytes. The call panics where the length of the
/// text does not fit a `usize`, and the buffer for the text cannot be had
/// where that length is more than half of what a `usize` holds; the text is
/// four thirds as long as the input, so an input of at most a quarter of that
/// range causes neither.
#[verifier::external_body]
fn base64_encode(bytes: &[u8]) -> (r: String)
    requires
        bytes@.len() <= usize::MAX / 4,
    ensures
        r@ == base64_text(bytes@),
{
    base64::Engine::encode(&base64::engine::general_purpose::STANDARD, bytes)
}

/// The JSON object for one item, given the JSON strings of its texts.
pub open spec fn item_frame(
    name_json: Seq<char>,
    url_json: Seq<char>,
    number: u64,
    title_json: Seq<char>,
) -> Seq<char> {
    "{\"bookmark_name\":"@ + name_json + ",\"pr_url\":"@ + url_json + ",\"pr_number\":"@
        + decimal_text(number as nat) + ",\"pr_title\":"@ + title_json + "}"@
}

/// The JSON object for one item.
pub open spec fn item_json(item: StackItemView) -> Seq<char> {
    item_frame(
        json_text(item.bookmark_name),
        json_text(item.pr_url),
        item.pr_number,
        json_text(item.pr_title),
    )
}

/// The JSON objects in a row, with commas between them.
pub open spec fn comma_joined(parts: Seq<Seq<char>>) -> Seq<char>
    decreases parts.len(),
{
    if parts.len() == 0 {
        Seq::empty()
    } else if parts.len() == 1 {
        parts[0]
    } else {
        comma_joined(parts.drop_last()) + ","@ + parts.last()
    }
}

/// The JSON object for a manifest, given the JSON objects of its items and
/// the JSON string of its base branch.
pub open spec fn manifest_frame(version: u8, items_json: Seq<Seq<char>>, base_json: Seq<char>)
    -> Seq<char> {
    "{\"version\":"@ + decimal_text(version as nat) + ",\"stack\":["@ + comma_joined(items_json)
        + "],\"base_branch\":"@ + base_json + "}"@
}

/// The JSON text of a manifest: an object with the fields `version`,
/// `stack` and `base_branch`, in this order and without white space.
pub open spec fn manifest_json(data: StackCommentView) -> Seq<char> {
    manifest_frame(
        data.version,
        data.stack.map_values(|item: StackItemView| item_json(item)),
        json_text(data.base_branch),
    )
}

/// Frames the JSON object for one item from the JSON strings of its texts.
pub fn frame_item(name_json: &str, url_json: &str, number: u64, title_json: &str) -> (r: String)
    ensures
        r@ == item_frame(name_json@, url_json@, number, title_json@),
{
    let digits = decimal(number);
    let mut r = String::from_str("{\"bookmark_name\":");
    r.append(name_json);
    r.append(",\"pr_url\":");
    r.append(url_json);
    r.append(",\"pr_number\":");
    r.append(digits.as_str());
    r.append(",\"pr_title\":");
    r.append(title_json);
    r.append("}");
    r
}

/// Frames the JSON object for a manifest from the JSON objects of its
/// items and the JSON string of its base branch.
pub fn frame_manifest(version: u8, items_json: &Vec<String>, base_json: &str) -> (r: String)
    ensures
        r@ == manifest_frame(version, items_json.deep_view(), base_json@),
{
    let ghost parts = items_json.deep_view();
    let digits = decimal(version as u64);
    let mut r = String::from_str("{\"version\":");
    r.append(digits.as_str());
    r.append(",\"stack\":[");
    let ghost head = r@;
    let mut i: usize = 0;
    assert(parts.take(0) =~= Seq::empty());
    assert(head + comma_joined(parts.take(0)) =~= head);
    while i < items_json.len()
        invariant
            parts == items_json.deep_view(),
            i <= items_json.len(),
            r@ == head + comma_joined(parts.take(i as int)),
        decreases items_json.len() - i,
    {
        proof {
            assert(parts.take(i + 1).drop_last() =~= parts.take(i as int));
            assert(parts.take(i + 1).last() == items_json@[i as int]@);
            assert(parts.take(i + 1)[0] == parts[0]);
        }
        if i > 0 {
            r.append(",");
        }
        r.append(items_json[i].as_str());
        proof {
            if i == 0 {
                assert(comma_joined(parts.take(0)) =~= Seq::empty());
                assert(r@ =~= head + comma_joined(parts.take(1)));
            } else {
                assert(r@ =~= head + comma_joined(parts.take(i + 1)));
            }
        }
        i += 1;
    }
    assert(parts.take(i as int) =~= parts);
    r.append("],\"base_branch\":");
    r.append(base_json);
    r.append("}");
    r
}

/// Writes a manifest as JSON: an object with the fields `version`, `stack`
/// and `base_branch`, the items of the stack as objects with the fields
/// `bookmark_name`, `pr_url`, `pr_number` and `pr_title`. The texts are
/// written by the JSON library, which fails on none: the result is `Ok`.
pub fn write_manifest(data: &StackCommentData) -> (r: Result<String, String>)
    ensures
        r is Ok,
        r->Ok_0@ == manifest_json(data@),
{
    let ghost items = data@.stack;
    let mut parts: Vec<String> = Vec::new();
    let mut i: usize = 0;
    while i < data.stack.len()
        invariant
            items == data@.stack,
            i <= data.stack.len(),
            parts.len() == i,
            forall|k: int| 0 <= k < i ==> parts@[k]@ == item_json(items[k]),
        decreases data.stack.len() - i,
    {
        let item = &data.stack[i];
        assert(item@ == items[i as int]);
        let name = match json_string(item.bookmark_name.as_str()) {
            Ok(json) => json,
            Err(message) => return Err(message),
        };
        let url = match json_string(item.pr_url.as_str()) {
            Ok(json) => json,
            Err(message) => return Err(message),
        };
        let title = match json_string(item.pr_title.as_str()) {
            Ok(json) => json,
            Err(message) => return Err(message),
        };
        parts.push(frame_item(name.as_str(), url.as_str(), item.pr_number, title.as_str()));
        i += 1;
    }
    let base = match json_string(data.base_branch.as_str()) {
        Ok(json) => json,
        Err(message) => return Err(message),
    };
    assert(parts.deep_view() =~= items.map_values(|item: StackItemView| item_json(item)));
    Ok(frame_manifest(data.version, &parts, base.as_str()))
}

/// The line for one pull request of the stack.
pub open spec fn item_line(item: StackItemView, current: bool) -> Seq<char> {
    if current {
        "* **"@ + item.pr_title + " #"@ + decimal_text(item.pr_number as nat) + " "@
            + STACK_COMMENT_THIS_PR@ + "**\n"@
    } else {
        "* "@ + item.pr_title + " #"@ + decimal_text(item.pr_number as nat) + "\n"@
    }
}

/// The lines for the topmost `count` pull requests of the stack, leaf
/// first. The line of the pull request at index `current` is marked.
pub open spec fn top_lines(stack: Seq<StackItemView>, current: int, count: nat) -> Seq<char>
    decreases count,
{
    if count == 0 {
        Seq::empty()
    } else {
        top_lines(stack, current, (count - 1) as nat) + item_line(
            stack[stack.len() - count],
            stack.len() - count == current,
        )
    }
}

/// The text of the stack comment on the pull request at index `current`:
/// the manifest between its two sentinels, a line for each pull request from
/// leaf to root, a line for the base branch, and the footer.
pub open spec fn comment_text(data: StackCommentView, current: int, encoded: Seq<char>) -> Seq<
    char,
> {
    COMMENT_DATA_PREFIX@ + encoded + COMMENT_DATA_POSTFIX@ + "\n"@ + top_lines(
        data.stack,
        current,
        data.stack.len(),
    ) + "* `"@ + data.base_branch + "`\n"@ + STACK_COMMENT_FOOTER@
}

/// Writes the stack comment for the pull request at index `current_idx`
/// around a manifest that is already encoded.
pub fn stack_comment_body(data: &StackCommentData, current_idx: usize, encoded: &str) -> (body:
    String)
    requires
        current_idx < data.stack.len(),
    ensures
        body@ == comment_text(data@, current_idx as int, encoded@),
{
    let ghost stack = data@.stack;
    let mut body = String::from_str(COMMENT_DATA_PREFIX);
    body.append(encoded);
    body.append(COMMENT_DATA_POSTFIX);
    body.append("\n");
    let ghost head = body@;
    let n = data.stack.len();
    let mut count: usize = 0;
    assert(head + top_lines(stack, current_idx as int, 0) =~= head);
    while count < n
        invariant
            stack == data@.stack,
            n == data.stack.len(),
            count <= n,
            body@ == head + top_lines(stack, current_idx as int, count as nat),
        decreases n - count,
    {
        count += 1;
        let i = n - count;
        let item = &data.stack[i];
        assert(item@ == stack[stack.len() - count]);
        let digits = decimal(item.pr_number);
        let ghost before = body@;
        if i == current_idx {
            body.append("* **");
            body.append(item.pr_title.as_str());
            body.append(" #");
            body.append(digits.as_str());
            body.append(" ");
            body.append(STACK_COMMENT_THIS_PR);
            body.append("**\n");
        } else {
            body.append("* ");
            body.append(item.pr_title.as_str());
            body.append(" #");
            body.append(digits.as_str());
            body.append("\n");
        }
        assert(body@ =~= before + item_line(item@, i == current_idx));
        assert(body@ =~= head + top_lines(stack, current_idx as int, count as nat));
    }
    body.append("* `");
    body.append(data.base_branch.as_str());
    body.append("`\n");
    body.append(STACK_COMMENT_FOOTER);
    body
}

/// Encodes a manifest for a stack comment: the base64 text of its bytes.
/// A manifest of more than a quarter of the addressable bytes is not encoded.
pub fn encode_manifest(manifest: &str) -> (r: Option<String>)
    ensures
        match r {
            Some(encoded) => encoded@ == base64_text(encode_utf8(manifest@)) && encode_utf8(
                manifest@,
            ).len() <= usize::MAX / 4,
            None => encode_utf8(manifest@).len() > usize::MAX / 4,
        },
{
    let bytes = manifest.as_bytes();
    if bytes.len() > usize::MAX / 4 {
        return None;
    }
    Some(base64_encode(bytes))
}

/// What writing the stack comment for the pull request at index `current`
/// yields: the text of the comment around the encoded manifest, or an
/// internal error where the manifest is too long to be encoded.
pub open spec fn comment_outcome(data: StackCommentView, current: int) -> Result<
    Seq<char>,
    ErrorView,
> {
    let bytes = encode_utf8(manifest_json(data));
    if bytes.len() > usize::MAX / 4 {
        Err(ErrorView::Internal("Failed to serialize stack data: too long"@))
    } else {
        Ok(comment_text(data, current, base64_text(bytes)))
    }
}

/// Writes the stack comment for the pull request at index `current_idx`.
/// Fails only where the manifest is too long to be encoded.
pub fn format_stack_comment(data: &StackCommentData, current_idx: usize) -> (r: Result<
    String,
    Error,
>)
    requires
        current_idx < data.stack.len(),
    ensures
        match r {
            Ok(body) => comment_outcome(data@, current_idx as int) == Ok::<Seq<char>, ErrorView>(
                body@,
            ),
            Err(error) => comment_outcome(data@, current_idx as int) == Err::<
                Seq<char>,
                ErrorView,
            >(error@),
        },
{
    match write_manifest(data) {
        Ok(manifest) => {
            match encode_manifest(manifest.as_str()) {
                Some(encoded) => Ok(stack_comment_body(data, current_idx, encoded.as_str())),
                None => Err(
                    Error::Internal(String::from_str("Failed to serialize stack data: too long")),
                ),
            }
        },
        Err(message) => Err(
            Error::Internal(join("Failed to serialize stack data: ", message.as_str())),
        ),
    }
}

/// The manifest as it stands in a stack comment: the base64 text of the
/// bytes of its JSON text, between the two sentinels.
pub open spec fn framed_manifest(data: StackCommentView) -> Seq<char> {
    COMMENT_DATA_PREFIX@ + base64_text(encode_utf8(manifest_json(data)))
        + COMMENT_DATA_POSTFIX@
}

/// A manifest that is short enough to be encoded gives a comment, for
/// whichever pull request it is written. The comment begins with the
/// manifest between its sentinels, so the manifest can be read back from
/// it; and it is recognised as a stack comment.
pub proof fn lemma_comment_holds_manifest(data: StackCommentView, current: int)
    requires
        encode_utf8(manifest_json(data)).len() <= usize::MAX / 4,
    ensures
        comment_outcome(data, current) is Ok,
        text_starts_with(comment_outcome(data, current)->Ok_0, framed_manifest(data)),
        is_stack_comment(comment_outcome(data, current)->Ok_0),
{
    let body = comment_outcome(data, current)->Ok_0;
    let framed = framed_manifest(data);
    assert(body.subrange(0, framed.len() as int) =~= framed);
    assert(body.subrange(0, COMMENT_DATA_PREFIX@.len() as int) =~= COMMENT_DATA_PREFIX@);
    assert(crate::text::occurs_at(body, COMMENT_DATA_PREFIX@, 0));
}

/// Whether a comment is a stack comment, of today's form or the earlier one.
pub open spec fn is_stack_comment(body: Seq<char>) -> bool {
    text_contains(body, COMMENT_DATA_PREFIX@) || text_contains(body, COMMENT_DATA_PREFIX_OLD@)
}

/// What to do with the stack comment of a pull request.
#[derive(Debug)]
pub enum CommentAction {
    /// Replace the text of an existing comment.
    Update { comment_id: u64, body: String },
    /// Add a new comment.
    Create { body: String },
}

/// The view of a [`CommentAction`].
pub enum CommentActionView {
    Update { comment_id: u64, body: Seq<char> },
    Create { body: Seq<char> },
}

impl View for CommentAction {
    type V = CommentActionView;

    open spec fn view(&self) -> CommentActionView {
        match self {
            CommentAction::Update { comment_id, body } => CommentActionView::Update {
                comment_id: *comment_id,
                body: body@,
            },
            CommentAction::Create { body } => CommentActionView::Create { body: body@ },
        }
    }
}

/// Comment `i` is the first stack comment among `comments`.
pub open spec fn is_first_stack_comment(comments: Seq<PrCommentView>, i: int) -> bool {
    &&& 0 <= i < comments.len()
    &&& is_stack_comment(comments[i].body)
    &&& forall|j: int| 0 <= j < i ==> !is_stack_comment((#[trigger] comments[j]).body)
}

/// Finds the stack comment among the comments of a pull request: the first
/// whose text holds the prefix of the data, in today's form or the earlier.
pub fn find_stack_comment(comments: &[PrComment]) -> (r: Option<usize>)
    ensures
        match r {
            Some(i) => is_first_stack_comment(comments.deep_view(), i as int),
            None => forall|j: int|
                0 <= j < comments.len() ==> !is_stack_comment(
                    (#[trigger] comments.deep_view()[j]).body,
                ),
        },
{
    let mut i: usize = 0;
    while i < comments.len()
        invariant
            i <= comments.len(),
            forall|j: int|
                0 <= j < i ==> !is_stack_comment((#[trigger] comments.deep_view()[j]).body),
        decreases comments.len() - i,
    {
        let body = comments[i].body.as_str();
        assert(comments.deep_view()[i as int].body == body@);
        if contains_text(body, COMMENT_DATA_PREFIX) || contains_text(body, COMMENT_DATA_PREFIX_OLD) {
            return Some(i);
        }
        i += 1;
    }
    None
}

/// Decides how the stack comment gets onto a pull request: the existing
/// stack comment is updated, and where there is none a comment is created.
pub fn stack_comment_action(comments: &[PrComment], body: String) -> (r: CommentAction)
    ensures
        match r@ {
            CommentActionView::Update { comment_id, body: text } => exists|i: int|
                is_first_stack_comment(comments.deep_view(), i) && comment_id
                    == comments.deep_view()[i].id && text == body@,
            CommentActionView::Create { body: text } => text == body@ && forall|j: int|
                0 <= j < comments.len() ==> !is_stack_comment(
                    (#[trigger] comments.deep_view()[j]).body,
                ),
        },
{
    match find_stack_comment(comments) {
        Some(i) => {
            assert(comments.deep_view()[i as int].id == comments@[i as int].id);
            CommentAction::Update { comment_id: comments[i].id, body }
        },
        None => CommentAction::Create { body },
    }
}

/// The error recorded where the stack comment of a pull request could not
/// be written.
pub open spec fn comment_failure(bookmark_name: Seq<char>, error: ErrorView) -> Seq<char> {
    "Failed to update stack comment for "@ + bookmark_name + ": "@ + error.text()
}

/// The error recorded where the stack comment of a pull request could not
/// be written. It does not fail the submission.
pub fn comment_failure_message(item: &StackItem, error: &Error) -> (r: String)
    ensures
        r@ == comment_failure(item@.bookmark_name, error@),
{
    let mut r = String::from_str("Failed to update stack comment for ");
    r.append(item.bookmark_name.as_str());
    r.append(": ");
    r.append(error.message().as_str());
    r
}

} // verus!
