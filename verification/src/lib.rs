pub mod urlset;
pub mod shape;
pub mod extract;
pub mod crawl;
