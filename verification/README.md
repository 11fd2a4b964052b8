# live_wetter

The logic of a browser dashboard for live weather, forecasts, photovoltaic
yield, radar and DWD warnings from Bright Sky, as a library verified with
Verus.

- `src/alerts.rs`: start dates of warnings, their groups, which warnings are
  shown locally and for all of Germany, and the card of a warning.
- `src/forecast.rs`: hourly records grouped into the first five days.
- `src/radar.rs`: the radar grid reduced to a coarse map of cells.
- `src/calendar.rs`: date keys, date and time texts, feed-in tariff periods.
- `src/labels.rs`: German texts for conditions, dates, times and stations.
- `src/urls.rs`: Bright Sky request URLs and the radar map page.
- `src/text.rs`: whitespace, trimming, splitting, decimal numbers.
- `app/`: the Dioxus web app around the library: clock, network, rendering,
  and the floating-point measurements.

## Collections keyed by text

Grouping the forecast by day and keeping one warning per group both need a
collection keyed by a `String`. With `BTreeMap<String, _>` or
`HashSet<String>`, Verus accepts the calls but proves nothing about them: the
specifications that vstd gives these collections only hold for keys whose
order and hashing it knows, and a `String` key is not among them. So the
library keeps the days in a `Vec` and picks the next smallest day text in
turn (`forecast::summarize_days`, ordered by `text_less`), and keeps the group
keys seen so far as a `Vec` of character sequences that it scans
(`alerts::unique_alerts`). Both carry their invariants in their contracts:
days come in strictly increasing order with no day twice, and no group key
occurs twice.
