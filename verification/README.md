# Artist credits

A verified library that splits a joined artist credit ("A$AP Rocky feat.
Drake") into the artists it names, and decides what an album card's actions
menu offers and in what order an album is queued.

- `src/text.rs`: whitespace, trimming, ASCII case folding and splitting, over
  the character view of a string, with the weight measure that shows every
  level of splitting shrinks the text.
- `src/markers.rs`: featuring and collaboration markers, hard delimiters,
  padded bullets, comma-separated guest lists.
- `src/artist.rs`: the splitter (`split_credit`, `credited`) and its model.
- `src/laws.rs`: what holds of every credit: no artist twice, first spelling
  kept, plain names pass through, hard delimiters separate, per-artist values
  preferred over the display string.
- `src/album.rs`: album menu entries and album track order.
