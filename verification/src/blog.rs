use crate::text::{split, split_text, texts_of};
use vstd::prelude::*;

verus! {

/// A post as it is typed in.
#[derive(Debug)]
pub struct Post {
    pub title: String,
    /// The paragraphs, with `^` between each two.
    pub body: String,
}

/// A post as it stands in the file of posts.
#[derive(Debug)]
pub struct PostForJson {
    pub woa_time: String,
    pub title: String,
    pub content: Vec<String>,
}

/// A link in the foot of the page.
#[derive(Debug)]
pub struct FooterLink {
    pub label: String,
    pub url: String,
}

/// What the page is called and how it is styled.
#[derive(Debug)]
pub struct Page {
    pub title: String,
    pub css: String,
}

/// The file of posts.
#[derive(Debug)]
pub struct BlogPostsForJson {
    pub page: Page,
    pub footer_links: Vec<FooterLink>,
    pub posts: Vec<PostForJson>,
}

/// The paragraphs of a body: what stands between the `^`.
pub fn split_content(content: &str) -> (paragraphs: Vec<String>)
    ensures
        texts_of(paragraphs@) == split(content@, "^"@),
{
    proof {
        reveal_strlit("^");
    }
    split_text(content, "^")
}

impl Post {
    /// The post as it is to stand in the file, stamped with the time given.
    pub fn for_json(&self, sf_time: String) -> (post: PostForJson)
        ensures
            post.woa_time@ == sf_time@,
            post.title@ == self.title@,
            texts_of(post.content@) == split(self.body@, "^"@),
    {
        let content = split_content(self.body.as_str());
        PostForJson { woa_time: sf_time, title: self.title.clone(), content }
    }
}

impl BlogPostsForJson {
    /// A file without posts, links or title.
    pub fn empty() -> (blog: BlogPostsForJson)
        ensures
            blog.posts@.len() == 0,
            blog.footer_links@.len() == 0,
            blog.page.title@.len() == 0,
            blog.page.css@.len() == 0,
    {
        BlogPostsForJson {
            posts: Vec::new(),
            footer_links: Vec::new(),
            page: Page { title: String::new(), css: String::new() },
        }
    }

    /// Puts a post in front of all others.
    pub fn add_post(&mut self, post: PostForJson)
        ensures
            final(self).posts@ == old(self).posts@.insert(0, post),
            final(self).page == old(self).page,
            final(self).footer_links == old(self).footer_links,
    {
        self.posts.insert(0, post);
    }
}

} // verus!
