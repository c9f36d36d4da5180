//! The state of one counting session and the decisions taken on each user
//! action: which stored image to delete before a new capture, what a
//! processed photograph replaces, and what "add dominos" shows.
use vstd::prelude::*;
use crate::pips::{label_texts, total_pips, total_pips_of, MAX_PIPS};
use crate::text::{chars_of, string_of};

verus! {

/// The address that deletes a stored image; the file name follows it.
pub const DELETE_IMAGE_ENDPOINT: &'static str = "http://localhost:8000/delete-image?filename=";

/// What follows the last `/` of `s` (all of `s` where it has none), as
/// `s.split('/').last()` gives it.
pub open spec fn last_segment(s: Seq<char>) -> Seq<char>
    decreases s.len(),
{
    if s.len() == 0 {
        s
    } else if s.last() == '/' {
        Seq::empty()
    } else {
        last_segment(s.drop_last()).push(s.last())
    }
}

/// A file name taken from an address holds no `/`.
pub proof fn law_filename_has_no_slash(s: Seq<char>)
    ensures
        forall|i: int| 0 <= i < last_segment(s).len() ==> #[trigger] last_segment(s)[i] != '/',
    decreases s.len(),
{
    if s.len() > 0 && s.last() != '/' {
        law_filename_has_no_slash(s.drop_last());
        let r = last_segment(s);
        assert forall|i: int| 0 <= i < r.len() implies #[trigger] r[i] != '/' by {
            if i < r.len() - 1 {
                assert(r[i] == last_segment(s.drop_last())[i]);
            }
        }
    }
}

/// The file name is the whole text after the last `/`: it is a suffix of
/// the address, and what comes before it is empty or ends with `/`.
pub proof fn law_filename_is_whole_last_segment(s: Seq<char>)
    ensures
        last_segment(s).len() <= s.len(),
        s.skip(s.len() - last_segment(s).len()) == last_segment(s),
        last_segment(s).len() == s.len() || s[s.len() - last_segment(s).len() - 1] == '/',
    decreases s.len(),
{
    if s.len() > 0 {
        let d = s.drop_last();
        law_filename_is_whole_last_segment(d);
        if s.last() == '/' {
            assert(s.skip(s.len() as int) =~= Seq::<char>::empty());
        } else {
            let r = last_segment(s);
            let k = s.len() - r.len();
            assert(k == d.len() - last_segment(d).len());
            assert(s.skip(k) =~= d.skip(k).push(s.last()));
            if r.len() < s.len() {
                assert(s[k - 1] == d[k - 1]);
            }
        }
    }
}

/// The file name of the image at `url`: what follows its last `/`.
pub fn image_filename(url: &str) -> (name: String)
    ensures
        name@ == last_segment(url@),
{
    let chars = chars_of(url);
    let n = chars.len();
    let mut segment: Vec<char> = Vec::new();
    let mut i: usize = 0;
    while i < n
        invariant
            n == chars@.len(),
            i <= n,
            segment@ == last_segment(chars@.take(i as int)),
        decreases n - i,
    {
        assert(chars@.take(i + 1).drop_last() =~= chars@.take(i as int));
        if chars[i] == '/' {
            segment = Vec::new();
        } else {
            segment.push(chars[i]);
        }
        i += 1;
    }
    assert(chars@.take(n as int) =~= chars@);
    string_of(&segment)
}

/// The address that deletes the stored image named `filename`.
pub fn delete_image_url(filename: &str) -> (url: String)
    ensures
        url@ == DELETE_IMAGE_ENDPOINT@ + filename@,
{
    let mut url = String::from_str(DELETE_IMAGE_ENDPOINT);
    url.append(filename);
    url
}

/// One counting session.
#[derive(Clone)]
pub struct Session {
    /// The address of the last processed photograph, once there is one.
    pub processed_image_url: Option<String>,
    /// The labels of the halves detected on that photograph.
    pub labels: Vec<String>,
    /// The count last shown.
    pub total_count: u64,
    /// Whether a count is shown.
    pub show_count: bool,
}

impl Session {
    /// A session with no photograph and no count shown.
    pub fn new() -> (s: Session)
        ensures
            s.processed_image_url is None,
            s.labels@.len() == 0,
            s.total_count == 0,
            !s.show_count,
    {
        Session { processed_image_url: None, labels: Vec::new(), total_count: 0, show_count: false }
    }

    /// Before a new capture: the address that deletes the previously
    /// processed image, if there is one.
    pub fn cleanup_request(&self) -> (url: Option<String>)
        ensures
            match self.processed_image_url {
                None => url is None,
                Some(u) => url.deep_view() == Some(DELETE_IMAGE_ENDPOINT@ + last_segment(u@)),
            },
    {
        match &self.processed_image_url {
            None => None,
            Some(u) => {
                let name = image_filename(u.as_str());
                Some(delete_image_url(name.as_str()))
            },
        }
    }

    /// A photograph was processed: it and its detections replace the
    /// previous ones; the count shown is left as it was.
    pub fn record_detections(&mut self, url: String, labels: Vec<String>)
        ensures
            final(self).processed_image_url == Some(url),
            final(self).labels@ == labels@,
            final(self).total_count == old(self).total_count,
            final(self).show_count == old(self).show_count,
    {
        self.processed_image_url = Some(url);
        self.labels = labels;
    }

    /// "Add dominos": the count becomes the sum of the pips of the current
    /// detections, and is shown.
    pub fn add_dominos(&mut self)
        requires
            old(self).labels.len() <= u64::MAX / MAX_PIPS as u64,
        ensures
            final(self).total_count == total_pips_of(label_texts(old(self).labels@)),
            final(self).show_count,
            final(self).labels@ == old(self).labels@,
            final(self).processed_image_url == old(self).processed_image_url,
    {
        self.total_count = total_pips(&self.labels);
        self.show_count = true;
    }
}

} // verus!
