# moviebox_web

The MovieBox web server: a catalog browser with playback through a local
proxy, background downloads (direct files, HLS segments, DASH through
yt-dlp), Google sign-in, and recommendations.

- `src/` is the library, verified with Verus: URL screening against
  request forgery (`ssrf`), URL parsing and encoding (`urls`), HLS variant
  choice (`hls`) and playlist rewriting (`playlist`), the download-job store
  (`jobs`), progress reading (`progress`), signed sessions (`auth`),
  endpoint and worker decisions (`web`), recommendation scoring (`recs`),
  and shared text and map helpers (`text`, `strmap`).
- `tests/` runs the library on concrete values.
- `app/` is the server around it: routes, HTTP, disk and process work, the
  catalog service, and the floating-point parts of scores and progress.
