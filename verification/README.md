# blog

The n8m.us site: Markdown posts with JSON frontmatter, served with an RSS feed,
a sitemap, a search index and fingerprinted static assets.

- `src/` is the library, verified with Verus: looking up content and assets,
  splitting frontmatter from Markdown, reading post dates from file names,
  highlighting code blocks, loading the site (posts newest first), writing the
  feed and the sitemap, escaping, fingerprinting assets, and deciding what each
  request is answered with.
- `app/` is the server around it: it reads the site directory, parses the JSON
  frontmatter, renders the HTML templates and serves everything over HTTP.
- `tests/` exercises the library on concrete values.

Run the server from the directory that holds `site/`; it listens on
<http://localhost:3000>.
